//! How far numbers move when they are quantized and decoded again, with arithmetic that rounds to
//! the nearest number.

use crate::bf16::{bf16_of, law_bf16_error, of_bf16};
use crate::float::{
    Arith, F32, fabs, fadd, fdiv, ffrom_int, finite, flt, fmul, fneg, fround, fsub, fto_i32, half,
    key, mag, magnitude, nan, one, zero,
};
use crate::fp4::{
    fp4_code, fp4_encodes, fp4_entry, fp4_index, fp4_scale, fp4_scaled, fp4_value, group_at, halves,
    law_fp4_nearest, law_fp4_nibble, law_fp4_round_trip, law_fp4_value,
};
use crate::fp8::{
    fp8_code, fp8_distance, fp8_encodes, fp8_entry, fp8_group_code, fp8_index, fp8_scale, fp8_value,
    law_fp8_nearest, law_fp8_round_trip, law_fp8_value, lemma_units_at, units,
};
use crate::grid::{cells, lemma_cell, lemma_row_fits, rows_fit};
use crate::int4::{
    fifteen, greatest, int4_code, int4_encodes, int4_scale, int4_table, int4_value,
    law_int4_round_trip, law_int4_table, least,
};
use crate::int8::{
    int8_code, int8_encodes, int8_entry, int8_scale, law_int8_round_trip, max_abs, table_row,
    top_code,
};
use crate::nibble::nibble;
use crate::rounding::{
    accurate, cuts_off, dust, eps, is_integer, largest_finite, lemma_constants, lemma_from_int,
    lemma_largest_finite, lemma_product, lemma_quotient, lemma_relative, lemma_rounded,
    lemma_scaled, lemma_sums, lemma_to_i32, lemma_unit, lemma_value_in_units, lemma_value_order,
    opposite, size, stands_for, symmetric, unit, value, whole,
};
use vstd::arithmetic::power2::{
    lemma2_to64, lemma_pow2_pos, lemma_pow2_strictly_increases, pow2,
};
use vstd::prelude::*;

verus! {

/// Every number of a list is finite.
pub open spec fn all_finite(s: Seq<F32>) -> bool {
    forall|i: int| 0 <= i < s.len() ==> finite(#[trigger] s[i])
}

proof fn lemma_abs_value(x: F32)
    ensures
        value(fabs(x)) == size(value(x)),
        value(fneg(x)) == -value(x),
{
    reveal(value);
    lemma_value_order(fabs(x), zero());
    lemma_value_order(x, zero());
    assert(mag(fabs(x)) == mag(x));
    assert(mag(fneg(x)) == mag(x));
}

/// The largest absolute value of finite numbers.
proof fn lemma_max_abs(s: Seq<F32>, n: int)
    requires
        all_finite(s),
        0 <= n <= s.len(),
    ensures
        finite(max_abs(s, n)),
        value(max_abs(s, n)) >= 0real,
        forall|i: int| 0 <= i < n ==> size(value(#[trigger] s[i])) <= value(max_abs(s, n)),
    decreases n,
{
    lemma_constants();
    if n > 0 {
        lemma_max_abs(s, n - 1);
        let (a, b) = (max_abs(s, n - 1), fabs(s[n - 1]));
        assert(finite(s[n - 1]));
        lemma_abs_value(s[n - 1]);
        lemma_value_order(a, b);
        lemma_value_order(b, a);
    }
}

/// An integer that stands for a number comes out of the conversion as it is.
proof fn lemma_whole<A: Arith>(q: F32) -> (n: int)
    requires
        accurate::<A>(),
        finite(q),
        is_integer(value(q)),
        size(value(q)) < 2147483648real,
    ensures
        value(q) == n as real,
        fto_i32::<A>(q) == n,
{
    let n = choose|n: int| value(q) == #[trigger] whole(n);
    let t = fto_i32::<A>(q) as int;
    lemma_to_i32::<A>(q);
    assert(cuts_off(value(q), t));
    n
}

/// What the encoding of a number of a row as an eight-bit integer gives back.
pub open spec fn int8_back<A: Arith>(row: Seq<F32>, v: F32) -> F32 {
    fmul::<A>(ffrom_int::<A>(int8_code::<A>(row, v) as i64), int8_scale::<A>(row))
}

#[verifier::spinoff_prover]
proof fn lemma_int8_error<A: Arith>(row: Seq<F32>, i: int)
    requires
        accurate::<A>(),
        all_finite(row),
        0 <= i < row.len(),
        1real / 1000000000000000000000000000000real <= value(max_abs(row, row.len() as int))
            <= 1000000000000000000000000000000real,
    ensures
        ({
            let (s, c) = (int8_scale::<A>(row), int8_code::<A>(row, row[i]) as int);
            let m = value(max_abs(row, row.len() as int));
            &&& finite(int8_back::<A>(row, row[i]))
            &&& value(s) > 0real
            &&& size(value(int8_back::<A>(row, row[i])) - value(row[i])) <= 501real / 1000real
                * value(s)
            &&& size(value(row[i])) == m ==> c == 127 || c == -127
        }),
{
    lemma_constants();
    lemma_unit();
    let e = eps();
    let mx = max_abs(row, row.len() as int);
    lemma_max_abs(row, row.len() as int);
    lemma_value_order(mx, zero());
    assert(!nan(mx) && key(mx) > 0);
    let v = row[i];
    assert(finite(v));
    assert(value(mx) * 4real * e >= 0real && value(mx) * (1real + 4real * e) == value(mx) + value(
        mx,
    ) * 4real * e) by (nonlinear_arith)
        requires
            value(mx) > 0real,
            e == 1real / 16777216real,
    ;
    lemma_scaled::<A>(mx, top_code(), v);
    let s = fdiv::<A>(mx, top_code());
    assert(int8_scale::<A>(row) == s);
    let y = fmul::<A>(v, fdiv::<A>(one(), s));
    let q = fround::<A>(y);
    let (sv, yv, qv, vv) = (value(s), value(y), value(q), value(v));
    let x = vv / sv;
    lemma_rounded::<A>(y);
    let n = lemma_whole::<A>(q);
    assert(-127 <= n <= 127);
    let c = int8_code::<A>(row, v);
    assert(c == n);
    let f = ffrom_int::<A>(c as i64);
    lemma_from_int::<A>(c as i64);
    lemma_product::<A>(f, s);
    let r = fmul::<A>(f, s);
    let p = qv * sv;
    lemma_largest_finite();
    assert(size(p) <= 127real * sv) by (nonlinear_arith)
        requires
            p == qv * sv,
            sv > 0real,
            size(qv) <= 127real,
    ;
    assert(stands_for(r, p));
    assert(size(p - vv) <= 5001real / 10000real * sv) by (nonlinear_arith)
        requires
            p == qv * sv,
            x * sv == vv,
            sv > 0real,
            size(qv - x) <= 5001real / 10000real,
    ;
    let m = value(mx);
    assert(2real * e * m <= m / 2real) by (nonlinear_arith)
        requires
            m > 0real,
            e == 1real / 16777216real,
    ;
    assert(sv >= m / 254real);
    assert(size(p) * e <= sv / 100000real) by (nonlinear_arith)
        requires
            size(p) <= 127real * sv,
            e == 1real / 16777216real,
    ;
    assert(dust() <= sv / 100000real);
    if size(vv) == m {
        let a = size(x);
        assert(a * sv == m) by (nonlinear_arith)
            requires
                a == size(x),
                x * sv == vv,
                sv > 0real,
                size(vv) == m,
        ;
        assert(size(127real - a) <= 2real * e * a) by (nonlinear_arith)
            requires
                a * sv == m,
                sv > 0real,
                size(sv * 127real - m) <= 2real * e * m,
        ;
        assert(2real * e * a <= 1real / 10000real) by (nonlinear_arith)
            requires
                0real <= a <= 127real * (1real + 8real * e),
                e == 1real / 16777216real,
        ;
    }
}

/// A table of eight-bit integers gives each number back to within half a step and a thousandth of
/// one, where the numbers of its row are finite and the largest absolute value of the row is
/// neither tiny nor huge; that value takes the largest code.
pub proof fn law_int8_error<A: Arith>(
    vals: Seq<F32>,
    out_dim: int,
    in_dim: int,
    packed: Seq<i8>,
    scales: Seq<F32>,
    k: int,
)
    requires
        accurate::<A>(),
        0 <= k < out_dim * in_dim,
        0 < in_dim,
        out_dim * in_dim <= vals.len(),
        int8_encodes::<A>(vals, out_dim, in_dim, packed, scales),
        all_finite(table_row(vals, in_dim, k / in_dim)),
        1real / 1000000000000000000000000000000real <= value(
            max_abs(table_row(vals, in_dim, k / in_dim), in_dim),
        ) <= 1000000000000000000000000000000real,
    ensures
        ({
            let mx = max_abs(table_row(vals, in_dim, k / in_dim), in_dim);
            let s = scales[k / in_dim];
            let r = int8_entry::<A>(packed, scales, in_dim, k);
            &&& s == fdiv::<A>(mx, top_code())
            &&& value(s) > 0real
            &&& finite(r)
            &&& size(value(r) - value(vals[k])) <= 501real / 1000real * value(s)
            &&& size(value(vals[k])) == value(mx) ==> packed[k] == 127 || packed[k] == -127
        }),
{
    law_int8_round_trip::<A>(vals, out_dim, in_dim, packed, scales, k);
    let row = table_row(vals, in_dim, k / in_dim);
    lemma_row_of(vals, out_dim, in_dim, k);
    lemma_int8_error::<A>(row, k % in_dim);
    lemma_constants();
    lemma_value_order(max_abs(row, in_dim), zero());
    lemma_max_abs(row, in_dim);
    assert(scales[k / in_dim] == int8_scale::<A>(row));
    assert(packed[k] == int8_code::<A>(row, vals[k]));
}

proof fn lemma_row_of(vals: Seq<F32>, out_dim: int, in_dim: int, k: int)
    requires
        0 <= k < out_dim * in_dim,
        0 < in_dim,
        out_dim * in_dim <= vals.len(),
    ensures
        0 <= k / in_dim < out_dim,
        0 <= k % in_dim < in_dim,
        table_row(vals, in_dim, k / in_dim).len() == in_dim,
        table_row(vals, in_dim, k / in_dim)[k % in_dim] == vals[k],
{
    let row = k / in_dim;
    vstd::arithmetic::div_mod::lemma_fundamental_div_mod(k, in_dim);
    assert(in_dim * row == row * in_dim) by (nonlinear_arith);
    assert(0 <= row < out_dim) by {
        vstd::arithmetic::div_mod::lemma_div_pos_is_pos(k, in_dim);
        vstd::arithmetic::mul::lemma_mul_is_commutative(out_dim, in_dim);
        vstd::arithmetic::div_mod::lemma_multiply_divide_lt(k, in_dim, out_dim);
    }
    lemma_cell(row, out_dim, in_dim);
}

proof fn lemma_same_max_abs(a: Seq<F32>, b: Seq<F32>, n: int)
    requires
        0 <= n <= a.len() == b.len(),
        forall|i: int| 0 <= i < a.len() ==> #[trigger] b[i] == fneg(a[i]),
    ensures
        max_abs(a, n) == max_abs(b, n),
    decreases n,
{
    if n > 0 {
        lemma_same_max_abs(a, b, n - 1);
        assert(b[n - 1] == fneg(a[n - 1]));
        assert(fabs(b[n - 1]) == fabs(a[n - 1]));
    }
}

/// Negated numbers have the same scales and negated codes, and no code is below -127.
pub proof fn law_int8_negated<A: Arith>(
    vals: Seq<F32>,
    negated: Seq<F32>,
    out_dim: int,
    in_dim: int,
    p: Seq<i8>,
    s: Seq<F32>,
    pn: Seq<i8>,
    sn: Seq<F32>,
)
    requires
        symmetric::<A>(),
        0 < in_dim,
        0 <= out_dim,
        out_dim * in_dim <= vals.len(),
        negated.len() == vals.len(),
        forall|i: int| 0 <= i < vals.len() ==> !nan(#[trigger] vals[i]),
        forall|i: int| 0 <= i < vals.len() ==> #[trigger] negated[i] == fneg(vals[i]),
        int8_encodes::<A>(vals, out_dim, in_dim, p, s),
        int8_encodes::<A>(negated, out_dim, in_dim, pn, sn),
    ensures
        sn == s,
        pn.len() == p.len(),
        forall|k: int|
            0 <= k < p.len() ==> -127 <= #[trigger] p[k] <= 127 && pn[k] == -p[k],
{
    assert forall|row: int| 0 <= row < out_dim implies #[trigger] int8_scale::<A>(
        table_row(vals, in_dim, row),
    ) == int8_scale::<A>(table_row(negated, in_dim, row)) by {
        lemma_negated_row::<A>(vals, negated, out_dim, in_dim, row);
    }
    assert(sn =~= s) by {
        assert forall|row: int| 0 <= row < out_dim implies sn[row] == s[row] by {
            assert(s[row] == int8_scale::<A>(table_row(vals, in_dim, row)));
        }
    }
    assert forall|k: int| 0 <= k < p.len() implies -127 <= #[trigger] p[k] <= 127 && pn[k]
        == -p[k] by {
        lemma_row_of(vals, out_dim, in_dim, k);
        let (a, b) = (
            table_row(vals, in_dim, k / in_dim),
            table_row(negated, in_dim, k / in_dim),
        );
        assert(int8_scale::<A>(a) == int8_scale::<A>(b));
        let inv = fdiv::<A>(one(), int8_scale::<A>(a));
        assert(negated[k] == fneg(vals[k]) && !nan(vals[k]));
        let (x, y) = (fmul::<A>(vals[k], inv), fmul::<A>(negated[k], inv));
        assert(opposite(x, y));
        assert(opposite(fround::<A>(x), fround::<A>(y)));
        let (m, n) = (fto_i32::<A>(fround::<A>(x)), fto_i32::<A>(fround::<A>(y)));
        assert(m + n == 0 || m == i32::MIN && n == i32::MAX || m == i32::MAX && n == i32::MIN);
        assert(p[k] == int8_code::<A>(a, vals[k]));
        assert(pn[k] == int8_code::<A>(b, negated[k]));
    }
}

proof fn lemma_negated_row<A: Arith>(
    vals: Seq<F32>,
    negated: Seq<F32>,
    out_dim: int,
    in_dim: int,
    row: int,
)
    requires
        0 < in_dim,
        0 <= row < out_dim,
        out_dim * in_dim <= vals.len(),
        negated.len() == vals.len(),
        forall|i: int| 0 <= i < vals.len() ==> #[trigger] negated[i] == fneg(vals[i]),
    ensures
        int8_scale::<A>(table_row(vals, in_dim, row)) == int8_scale::<A>(
            table_row(negated, in_dim, row),
        ),
{
    lemma_cell(row, out_dim, in_dim);
    let (a, b) = (table_row(vals, in_dim, row), table_row(negated, in_dim, row));
    assert forall|i: int| 0 <= i < a.len() implies #[trigger] b[i] == fneg(a[i]) by {
        assert(negated[row * in_dim + i] == fneg(vals[row * in_dim + i]));
    }
    lemma_same_max_abs(a, b, a.len() as int);
}

proof fn lemma_zero_max_abs(s: Seq<F32>, n: int)
    requires
        0 <= n <= s.len(),
        forall|i: int| 0 <= i < s.len() ==> key(#[trigger] s[i]) == 0,
    ensures
        key(max_abs(s, n)) == 0,
    decreases n,
{
    if n > 0 {
        lemma_zero_max_abs(s, n - 1);
        assert(key(s[n - 1]) == 0);
    }
}

/// A row of zeros has the code zero throughout, and the scale is not zero but `1 / 127`.
pub proof fn law_int8_zero_row<A: Arith>(row: Seq<F32>, i: int)
    requires
        accurate::<A>(),
        0 <= i < row.len(),
        forall|i: int| 0 <= i < row.len() ==> key(#[trigger] row[i]) == 0,
    ensures
        int8_scale::<A>(row) == fdiv::<A>(one(), top_code()),
        value(int8_scale::<A>(row)) > 0real,
        int8_code::<A>(row, row[i]) == 0,
{
    lemma_constants();
    lemma_unit();
    lemma_zero_max_abs(row, row.len() as int);
    assert(key(row[i]) == 0);
    let v = row[i];
    lemma_value_order(v, zero());
    let s = fdiv::<A>(one(), top_code());
    lemma_quotient::<A>(one(), top_code());
    lemma_relative(s, 1real / 127real);
    let sv = value(s);
    let inv = fdiv::<A>(one(), s);
    let w = 1real / sv;
    assert(1real / 128real <= sv <= 1real / 126real);
    assert(126real <= w <= 128real) by (nonlinear_arith)
        requires
            w == 1real / sv,
            1real / 128real <= sv <= 1real / 126real,
    ;
    lemma_quotient::<A>(one(), s);
    lemma_relative(inv, w);
    let y = fmul::<A>(v, inv);
    lemma_product::<A>(v, inv);
    assert(value(v) * value(inv) == 0real) by (nonlinear_arith)
        requires
            value(v) == 0real,
    ;
    assert(stands_for(y, 0real));
    lemma_largest_finite();
    lemma_value_order(y, zero());
    assert(value(y) == 0real);
    lemma_rounded::<A>(y);
    let n = lemma_whole::<A>(fround::<A>(y));
    assert(n == 0);
}

proof fn lemma_smallest_normal()
    ensures
        value(F32 { bits: 0x80_0000 }) < 1real / 10000000000000000000000000000000000000real,
{
    reveal(value);
    lemma2_to64();
    lemma_unit();
    let x = F32 { bits: 0x80_0000 };
    assert(mag(x) / 0x80_0000 == 1 && mag(x) % 0x80_0000 == 0);
    assert(pow2(0) == 1);
    assert(magnitude(x) == 0x80_0000);
    assert(value(x) == 8388608real / unit());
}

/// A scale of ordinary size on its way to bfloat16 and back.
proof fn lemma_bf16_scale(s: F32)
    requires
        finite(s),
        1real / 10000000000000000000000000000000000000real <= size(value(s))
            <= 2000000000000000000000000000000real,
    ensures
        ({
            let b = of_bf16(bf16_of(s));
            &&& finite(b)
            &&& size(value(b) - value(s)) <= size(value(s)) / 128real
        }),
{
    lemma_unit();
    lemma_smallest_normal();
    lemma_largest_finite();
    lemma_abs_value(s);
    let (x, z) = (fabs(s), F32 { bits: 0x80_0000 });
    lemma_value_order(x, z);
    assert(mag(s) >= 0x80_0000);
    law_bf16_error(s);
    let b = of_bf16(bf16_of(s));
    let (m, n, u) = (magnitude(s) as int, magnitude(b) as int, unit());
    let (rm, rn) = (m as real, n as real);
    assert(128real * (rm - rn) <= rm && 128real * (rn - rm) <= rm);
    assert(size(rn / u - rm / u) <= rm / u / 128real) by (nonlinear_arith)
        requires
            128real * (rm - rn) <= rm && 128real * (rn - rm) <= rm,
            u > 0real,
    ;
    assert(rm / u >= 0real && rn / u >= 0real) by (nonlinear_arith)
        requires
            rm >= 0real,
            rn >= 0real,
            u > 0real,
    ;
    assert(size(value(s)) == rm / u && size(value(b) - value(s)) == size(rn / u - rm / u)) by {
        reveal(value);
    }
    lemma_abs_value(b);
    lemma_value_order(largest_finite(), fabs(b));
    lemma_value_order(fabs(b), largest_finite());
}

/// Decoding with a scale in bfloat16: a code whose value times the scale is close to a number
/// gives back a number close to it.
proof fn lemma_decoded<A: Arith>(s: F32, d: F32, v: real, k: real, g: real)
    requires
        accurate::<A>(),
        finite(s),
        finite(d),
        1real / 1000000000000real <= value(s) <= 1000000000000000000000000000000real,
        1real <= k <= 256real,
        size(value(d)) <= k,
        size(value(d) * value(s) - v) <= g * value(s),
    ensures
        ({
            let r = fmul::<A>(d, of_bf16(bf16_of(s)));
            &&& finite(r)
            &&& size(value(r) - v) <= value(s) * (g + k / 128real + 1real / 1000real)
            &&& value(d) >= 0real ==> value(r) >= 0real
            &&& value(d) <= 0real ==> value(r) <= 0real
        }),
{
    lemma_unit();
    lemma_constants();
    lemma_largest_finite();
    lemma_bf16_scale(s);
    let b = of_bf16(bf16_of(s));
    let r = fmul::<A>(d, b);
    let (sv, dv, bv, e) = (value(s), value(d), value(b), eps());
    let p = dv * bv;
    assert(size(p - dv * sv) <= k * (sv / 128real)) by (nonlinear_arith)
        requires
            p == dv * bv,
            size(dv) <= k,
            k >= 1real,
            sv > 0real,
            size(bv - sv) <= sv / 128real,
    ;
    assert(size(p) <= 2real * k * sv) by (nonlinear_arith)
        requires
            p == dv * bv,
            size(dv) <= k,
            k >= 1real,
            sv > 0real,
            size(bv - sv) <= sv / 128real,
    ;
    assert(2real * k * sv <= 512real * sv) by (nonlinear_arith)
        requires
            k <= 256real,
            sv > 0real,
    ;
    lemma_product::<A>(d, b);
    assert(size(p) * e <= sv / 2000real) by (nonlinear_arith)
        requires
            size(p) <= 512real * sv,
            e == 1real / 16777216real,
            sv > 0real,
    ;
    assert(dust() <= sv / 2000real);
    assert(sv * (g + k / 128real + 1real / 1000real) == g * sv + k * (sv / 128real) + sv
        / 1000real) by (nonlinear_arith);
    assert(dv >= 0real ==> p >= 0real) by (nonlinear_arith)
        requires
            p == dv * bv,
            bv > 0real,
    ;
    assert(dv <= 0real ==> p <= 0real) by (nonlinear_arith)
        requires
            p == dv * bv,
            bv > 0real,
    ;
    lemma_value_order(r, zero());
    lemma_value_order(zero(), r);
}

/// The value of a four-bit code.
proof fn lemma_fp4_real(code: int)
    requires
        0 <= code < 16,
    ensures
        finite(fp4_value(code)),
        size(value(fp4_value(code))) == (halves(code) as real) / 2real,
        code < 8 ==> value(fp4_value(code)) >= 0real,
        code >= 8 ==> value(fp4_value(code)) <= 0real,
{
    lemma2_to64();
    law_fp4_value(code);
    lemma_value_in_units(fp4_value(code), halves(code), 1);
    let (z, p) = (size(value(fp4_value(code))), (pow2(1) as int) as real);
    assert(p == 2real);
    assert(z == z * p / 2real) by (nonlinear_arith)
        requires
            p == 2real,
    ;
    lemma_value_order(fp4_value(code), zero());
    lemma_constants();
}

/// How far two integers are apart.
spec fn apart(a: int, b: int) -> int {
    if a > b {
        a - b
    } else {
        b - a
    }
}

/// What is closer in magnitude is closer in value.
proof fn lemma_closer(x: F32, a: F32, b: F32)
    ensures
        ({
            let (y, p, q) = (size(value(x)), size(value(a)), size(value(b)));
            let (m, i, j) = (magnitude(x) as int, magnitude(a) as int, magnitude(b) as int);
            &&& size(p - y) <= size(q - y) <==> apart(i, m) <= apart(j, m)
            &&& size(p - y) == size(q - y) <==> apart(i, m) == apart(j, m)
        }),
{
    reveal(value);
    lemma_unit();
    let u = unit();
    let (m, i, j) = (magnitude(x) as int, magnitude(a) as int, magnitude(b) as int);
    lemma_distance(i, m, u);
    lemma_distance(j, m, u);
    let (da, db) = (apart(i, m), apart(j, m));
    assert(da <= db <==> (da as real) / u <= (db as real) / u) by (nonlinear_arith)
        requires
            u > 0real,
    ;
    assert(da == db <==> (da as real) / u == (db as real) / u) by (nonlinear_arith)
        requires
            u > 0real,
    ;
}

proof fn lemma_distance(a: int, m: int, u: real)
    requires
        0 <= a,
        0 <= m,
        0real < u,
    ensures
        size((a as real) / u - (m as real) / u) == (apart(a, m) as real) / u,
        (a as real) / u >= 0real,
        (m as real) / u >= 0real,
{
    let (x, y) = (a as real, m as real);
    assert(x / u - y / u == (x - y) / u && y / u - x / u == (y - x) / u) by (nonlinear_arith)
        requires
            u > 0real,
    ;
    assert(x >= y ==> (x - y) / u >= 0real) by (nonlinear_arith)
        requires
            u > 0real,
    ;
    assert(x <= y ==> (y - x) / u >= 0real) by (nonlinear_arith)
        requires
            u > 0real,
    ;
    assert(x / u >= 0real && y / u >= 0real) by (nonlinear_arith)
        requires
            u > 0real,
            x >= 0real,
            y >= 0real,
    ;
}

/// The code of a magnitude is nearest to it in value.
proof fn lemma_fp4_distance(x: F32, i: int, code: int)
    requires
        0 <= code < 8,
        i == fp4_index(mag(x)),
    ensures
        ({
            let (y, a, b) = (
                size(value(x)),
                size(value(fp4_value(i))),
                size(value(fp4_value(code))),
            );
            &&& 0 <= i < 8
            &&& size(a - y) <= size(b - y)
            &&& size(a - y) == size(b - y) ==> code <= i
        }),
{
    law_fp4_nearest(x, code);
    law_fp4_value(i);
    law_fp4_value(code);
    lemma_closer(x, fp4_value(i), fp4_value(code));
}

/// The number that a group's scale is formed from: the largest absolute value, but not below
/// about `1e-8`.
spec fn group_top(group: Seq<F32>) -> F32 {
    let m = max_abs(group, group.len() as int);
    let tiny = F32 { bits: 0x322B_CC77 };
    if flt(m, tiny) {
        tiny
    } else {
        m
    }
}

proof fn lemma_group_top(group: Seq<F32>)
    requires
        all_finite(group),
    ensures
        finite(group_top(group)),
        value(group_top(group)) > 1real / 100100000real,
        value(group_top(group)) <= 340282366920938463463374607431768211456real,
        forall|i: int|
            0 <= i < group.len() ==> size(value(#[trigger] group[i])) <= value(group_top(group)),
        value(max_abs(group, group.len() as int)) >= 1real / 100000000real ==> group_top(group)
            == max_abs(group, group.len() as int),
{
    lemma_constants();
    lemma_largest_finite();
    let m = max_abs(group, group.len() as int);
    let tiny = F32 { bits: 0x322B_CC77 };
    lemma_max_abs(group, group.len() as int);
    lemma_value_order(m, tiny);
    lemma_value_order(tiny, m);
    lemma_value_order(m, largest_finite());
}

proof fn lemma_slack(m: real)
    requires
        m >= 0real,
    ensures
        m <= m * (1real + 4real * eps()),
{
    let e = eps();
    assert(m <= m * (1real + 4real * e)) by (nonlinear_arith)
        requires
            m >= 0real,
            e >= 0real,
    ;
}

/// The code of a number of a group is nearest to the scaled number, with the sign.
#[verifier::spinoff_prover]
proof fn lemma_fp4_code<A: Arith>(group: Seq<F32>, i: int, code: int)
    requires
        accurate::<A>(),
        all_finite(group),
        0 <= i < group.len(),
        0 <= code < 16,
    ensures
        ({
            let x = fp4_scaled::<A>(group, group[i]);
            let nib = fp4_code::<A>(group, group[i]);
            let (d, c) = (value(fp4_value(nib)), value(fp4_value(code)));
            &&& finite(x)
            &&& 0 <= nib < 16
            &&& nib >= 8 <==> value(group[i]) < 0real
            &&& size(d - value(x)) <= size(c - value(x))
            &&& size(d - value(x)) == size(c - value(x)) ==> size(c) <= size(d)
        }),
{
    lemma_fp4_scaled::<A>(group, i);
    let (v, x) = (group[i], fp4_scaled::<A>(group, group[i]));
    let (n, c) = (fp4_index(mag(x)), code % 8);
    lemma_fp4_distance(x, n, c);
    let nib = fp4_code::<A>(group, v);
    assert(finite(v));
    assert(nib >= 8 <==> value(v) < 0real) by {
        lemma_constants();
        lemma_value_order(zero(), v);
        lemma_value_order(v, zero());
    }
    assert(nib % 8 == n);
    lemma_fp4_real(nib);
    lemma_fp4_real(n);
    lemma_fp4_real(code);
    lemma_fp4_real(c);
    assert(halves(nib) == halves(n) && halves(code) == halves(c));
    lemma_halves(c, n);
    lemma_signed(value(fp4_value(nib)), value(fp4_value(code)), value(x));
}

/// What is nearest in absolute value is nearest with the sign too.
proof fn lemma_signed(d: real, c: real, x: real)
    requires
        d >= 0real && x >= 0real || d <= 0real && x <= 0real,
        size(size(d) - size(x)) <= size(size(c) - size(x)),
        size(size(d) - size(x)) == size(size(c) - size(x)) ==> size(c) <= size(d),
    ensures
        size(d - x) <= size(c - x),
        size(d - x) == size(c - x) ==> size(c) <= size(d),
{
}

/// A number of a group in units of the scale.
proof fn lemma_fp4_scaled<A: Arith>(group: Seq<F32>, i: int)
    requires
        accurate::<A>(),
        all_finite(group),
        0 <= i < group.len(),
    ensures
        finite(group[i]),
        finite(fp4_scaled::<A>(group, group[i])),
        value(group[i]) >= 0real ==> value(fp4_scaled::<A>(group, group[i])) >= 0real,
        value(group[i]) <= 0real ==> value(fp4_scaled::<A>(group, group[i])) <= 0real,
{
    lemma_constants();
    lemma_group_top(group);
    let mx = group_top(group);
    lemma_slack(value(mx));
    assert(size(value(group[i])) <= value(mx));
    lemma_scaled::<A>(mx, F32 { bits: 0x40C0_0000 }, group[i]);
}

proof fn lemma_halves(a: int, b: int)
    requires
        0 <= a <= 7,
        0 <= b <= 7,
    ensures
        a <= b ==> halves(a) <= halves(b),
        0 <= halves(a) <= 12,
{
}

/// The code of a number in a group of finite numbers is nearest to the scaled number, with the
/// sign: no code is closer, of two equally close ones it is the one that is larger in absolute
/// value, and its highest bit is the sign of the number.
pub proof fn law_fp4_code_is_nearest<A: Arith>(
    vals: Seq<F32>,
    out_dim: int,
    in_dim: int,
    packed: Seq<u32>,
    scales: Seq<u16>,
    row: int,
    j: int,
    code: int,
)
    requires
        accurate::<A>(),
        0 <= row < out_dim,
        0 <= j < in_dim / 64 * 64,
        rows_fit(vals.len() as int, out_dim, in_dim, in_dim / 64 * 64),
        fp4_encodes::<A>(vals, out_dim, in_dim, packed, scales),
        all_finite(group_at(vals, in_dim, row, j)),
        0 <= code < 16,
    ensures
        ({
            let v = vals[row * in_dim + j];
            let x = fp4_scaled::<A>(group_at(vals, in_dim, row, j), v);
            let nib = nibble(packed[row * (in_dim / 8) + j / 8], j % 8) as int;
            let (d, c) = (value(fp4_value(nib)), value(fp4_value(code)));
            &&& finite(x)
            &&& 0 <= nib < 16
            &&& nib >= 8 <==> value(v) < 0real
            &&& size(d - value(x)) <= size(c - value(x))
            &&& size(d - value(x)) == size(c - value(x)) ==> size(c) <= size(d)
        }),
{
    law_fp4_nibble::<A>(vals, out_dim, in_dim, packed, scales, row, j);
    lemma_fp4_code::<A>(group_at(vals, in_dim, row, j), j % 64, code);
}

/// Some code lies within one of every number up to six.
proof fn lemma_fp4_near(y: real) -> (c: int)
    requires
        0real <= y <= 6001real / 1000real,
    ensures
        0 <= c < 8,
        size((halves(c) as real) / 2real - y) <= 1001real / 1000real,
{
    if y >= 5real {
        7
    } else if y >= 7real / 2real {
        6
    } else if y >= 2real {
        5
    } else {
        2
    }
}

/// The value of the code of a number is close to the scaled number and has its sign.
proof fn lemma_fp4_code_near<A: Arith>(group: Seq<F32>, i: int)
    requires
        accurate::<A>(),
        all_finite(group),
        0 <= i < group.len(),
        size(value(fp4_scaled::<A>(group, group[i]))) <= 6001real / 1000real,
    ensures
        ({
            let nib = fp4_code::<A>(group, group[i]);
            let d = value(fp4_value(nib));
            &&& finite(fp4_value(nib))
            &&& size(d - value(fp4_scaled::<A>(group, group[i]))) <= 1001real / 1000real
            &&& size(d) <= 6real
            &&& value(group[i]) >= 0real ==> d >= 0real
            &&& value(group[i]) <= 0real ==> d <= 0real
        }),
{
    let c = lemma_fp4_near_signed(value(fp4_scaled::<A>(group, group[i])));
    lemma_fp4_code::<A>(group, i, c);
    lemma_fp4_most(fp4_code::<A>(group, group[i]));
    lemma_fp4_zero::<A>(group, i);
}

/// Some code with the sign of a number lies within one of it.
proof fn lemma_fp4_near_signed(y: real) -> (c: int)
    requires
        size(y) <= 6001real / 1000real,
    ensures
        0 <= c < 16,
        size(value(fp4_value(c)) - y) <= 1001real / 1000real,
{
    let near = lemma_fp4_near(size(y));
    let c = if y >= 0real {
        near
    } else {
        near + 8
    };
    assert(halves(c) == halves(near));
    lemma_fp4_real(c);
    c
}

/// No code is beyond six.
proof fn lemma_fp4_most(code: int)
    requires
        0 <= code < 16,
    ensures
        finite(fp4_value(code)),
        size(value(fp4_value(code))) <= 6real,
        code < 8 ==> value(fp4_value(code)) >= 0real,
        code >= 8 ==> value(fp4_value(code)) <= 0real,
{
    lemma_fp4_real(code);
    lemma_halves(code % 8, code % 8);
    assert(halves(code) == halves(code % 8));
}

#[verifier::spinoff_prover]
proof fn lemma_fp4_error<A: Arith>(group: Seq<F32>, i: int)
    requires
        accurate::<A>(),
        all_finite(group),
        0 <= i < group.len(),
        1real / 100000000real <= value(max_abs(group, group.len() as int))
            <= 1000000000000000000000000000000real,
    ensures
        ({
            let r = fmul::<A>(
                fp4_value(fp4_code::<A>(group, group[i])),
                of_bf16(bf16_of(fp4_scale::<A>(group))),
            );
            &&& finite(r)
            &&& size(value(r) - value(group[i])) <= 18real / 100real * value(
                max_abs(group, group.len() as int),
            )
            &&& value(group[i]) >= 0real ==> value(r) >= 0real
            &&& value(group[i]) <= 0real ==> value(r) <= 0real
        }),
{
    let (mx, six, v) = (max_abs(group, group.len() as int), F32 { bits: 0x40C0_0000 }, group[i]);
    let e = eps();
    lemma_constants();
    lemma_group_top(group);
    lemma_slack(value(mx));
    assert(size(value(v)) <= value(mx));
    lemma_scaled::<A>(mx, six, v);
    let s = fdiv::<A>(mx, six);
    assert(fp4_scale::<A>(group) == s);
    let y = fp4_scaled::<A>(group, v);
    let (m, sv, yv, vv) = (value(mx), value(s), value(y), value(v));
    let x = vv / sv;
    assert(size(sv * 6real - m) <= m / 1000000real) by (nonlinear_arith)
        requires
            size(sv * 6real - m) <= 2real * e * m,
            e == 1real / 16777216real,
            m > 0real,
    ;
    let nib = fp4_code::<A>(group, v);
    let d = value(fp4_value(nib));
    assert(size(yv) <= 6001real / 1000real);
    lemma_fp4_code_near::<A>(group, i);
    assert(size(d - x) <= 1002real / 1000real);
    assert(size(d * sv - vv) <= 1002real / 1000real * sv) by (nonlinear_arith)
        requires
            size(d - x) <= 1002real / 1000real,
            x * sv == vv,
            sv > 0real,
    ;
    lemma_decoded::<A>(s, fp4_value(nib), vv, 6real, 1002real / 1000real);
    assert(sv * (1002real / 1000real + 6real / 128real + 1real / 1000real) <= 18real / 100real * m)
        by (nonlinear_arith)
        requires
            sv * 6real <= m + m / 1000000real,
            m > 0real,
    ;
}

/// Zero has the code zero.
proof fn lemma_fp4_zero<A: Arith>(group: Seq<F32>, i: int)
    requires
        accurate::<A>(),
        all_finite(group),
        0 <= i < group.len(),
    ensures
        value(group[i]) == 0real ==> value(fp4_value(fp4_code::<A>(group, group[i]))) == 0real,
        value(group[i]) < 0real ==> value(fp4_value(fp4_code::<A>(group, group[i]))) <= 0real,
{
    let nib = fp4_code::<A>(group, group[i]);
    lemma_fp4_code::<A>(group, i, 0);
    lemma_fp4_scaled::<A>(group, i);
    lemma_fp4_real(nib);
    lemma_fp4_real(0);
}

/// A table of four-bit floating-point numbers gives each number of a group of finite numbers back
/// to within 18 hundredths of the largest absolute value of the group, where that is neither tiny
/// nor huge, and never with the opposite sign.
pub proof fn law_fp4_error<A: Arith>(
    vals: Seq<F32>,
    out_dim: int,
    in_dim: int,
    packed: Seq<u32>,
    scales: Seq<u16>,
    row: int,
    j: int,
)
    requires
        accurate::<A>(),
        0 <= row < out_dim,
        0 <= j < in_dim / 64 * 64,
        rows_fit(vals.len() as int, out_dim, in_dim, in_dim / 64 * 64),
        fp4_encodes::<A>(vals, out_dim, in_dim, packed, scales),
        all_finite(group_at(vals, in_dim, row, j)),
        1real / 100000000real <= value(max_abs(group_at(vals, in_dim, row, j), 64))
            <= 1000000000000000000000000000000real,
    ensures
        ({
            let v = value(vals[row * in_dim + j]);
            let r = fp4_entry::<A>(packed, scales, in_dim, row * in_dim + j);
            &&& finite(r)
            &&& size(value(r) - v) <= 18real / 100real * value(
                max_abs(group_at(vals, in_dim, row, j), 64),
            )
            &&& v >= 0real ==> value(r) >= 0real
            &&& v <= 0real ==> value(r) <= 0real
        }),
{
    law_fp4_nibble::<A>(vals, out_dim, in_dim, packed, scales, row, j);
    law_fp4_round_trip::<A>(vals, out_dim, in_dim, packed, scales, row, j);
    lemma_fp4_error::<A>(group_at(vals, in_dim, row, j), j % 64);
}

/// The value of an eight-bit code.
proof fn lemma_fp8_real(code: int)
    requires
        0 <= code < 256,
    ensures
        finite(fp8_value(code)),
        size(value(fp8_value(code))) == (units(code % 128) as real) / 512real,
        code < 128 ==> value(fp8_value(code)) >= 0real,
        code >= 128 ==> value(fp8_value(code)) <= 0real,
{
    lemma2_to64();
    law_fp8_value(code);
    lemma_value_in_units(fp8_value(code), units(code % 128), 9);
    let (z, p) = (size(value(fp8_value(code))), (pow2(9) as int) as real);
    assert(p == 512real);
    assert(z == z * p / 512real) by (nonlinear_arith)
        requires
            p == 512real,
    ;
    lemma_value_order(fp8_value(code), zero());
    lemma_constants();
}

/// The code of a magnitude is nearest to it in value.
proof fn lemma_fp8_distance(x: F32, i: int, code: int)
    requires
        0 <= code < 120,
        i == fp8_index(mag(x)),
    ensures
        ({
            let (y, a, b) = (
                size(value(x)),
                size(value(fp8_value(i))),
                size(value(fp8_value(code))),
            );
            &&& 0 <= i < 120
            &&& size(a - y) <= size(b - y)
        }),
{
    law_fp8_nearest(x, code);
    lemma_fp8_closer(x, i, code);
}

proof fn lemma_fp8_closer(x: F32, i: int, code: int)
    requires
        0 <= i < 120,
        0 <= code < 120,
        fp8_distance(x, i) <= fp8_distance(x, code),
    ensures
        size(size(value(fp8_value(i))) - size(value(x))) <= size(
            size(value(fp8_value(code))) - size(value(x)),
        ),
{
    lemma_fp8_apart(x, i);
    lemma_fp8_apart(x, code);
    lemma_closer(x, fp8_value(i), fp8_value(code));
}

proof fn lemma_fp8_apart(x: F32, c: int)
    requires
        0 <= c < 120,
    ensures
        fp8_distance(x, c) == apart(magnitude(fp8_value(c)) as int, magnitude(x) as int),
{
    law_fp8_value(c);
    assert(c % 128 == c);
}

/// Neighbouring codes are at most sixteen apart.
proof fn lemma_fp8_gap(c: int)
    requires
        0 <= c < 119,
    ensures
        units(c) <= units(c + 1) <= units(c) + 8192,
{
    lemma2_to64();
    if c < 8 {
        lemma_units_at(1, 0);
        lemma_units_at(1, 1);
    } else {
        let (e, m) = (c / 8, c % 8);
        lemma_units_at(e, m);
        lemma_units_at(e, m + 1);
        let p = pow2((e - 1) as nat) as int;
        if e - 1 < 13 {
            lemma_pow2_strictly_increases((e - 1) as nat, 13);
        }
        assert((8 + m + 1) * p == (8 + m) * p + p) by (nonlinear_arith);
    }
}

/// Some code lies within eight of every number up to 240, searched from code `c` on.
proof fn lemma_fp8_near(y: real, c: int) -> (r: int)
    requires
        0 <= c < 120,
        (units(c) as real) / 512real <= y <= 24001real / 100real,
    ensures
        0 <= r < 120,
        size((units(r) as real) / 512real - y) <= 801real / 100real,
    decreases 120 - c,
{
    if c == 119 {
        lemma_units_at(14, 7);
        lemma2_to64();
        assert(units(119) == 122880);
        c
    } else {
        lemma_fp8_gap(c);
        if (units(c + 1) as real) / 512real <= y {
            lemma_fp8_near(y, c + 1)
        } else if y - (units(c) as real) / 512real <= 8real {
            c
        } else {
            c + 1
        }
    }
}

proof fn lemma_fp8_code(y: F32)
    requires
        finite(y),
        size(value(y)) <= 24001real / 100real,
    ensures
        ({
            let d = value(fp8_value(fp8_code(y)));
            &&& 0 <= fp8_code(y) < 256
            &&& finite(fp8_value(fp8_code(y)))
            &&& size(d - value(y)) <= 801real / 100real
            &&& size(d) <= 240real
            &&& value(y) >= 0real ==> d >= 0real
            &&& value(y) <= 0real ==> d <= 0real
        }),
{
    let n = fp8_index(mag(y));
    law_fp8_nearest(y, 0);
    lemma_fp8_index_near(y, n);
    assert(fp8_code(y) == if value(y) < 0real {
        n + 128
    } else {
        n
    }) by {
        lemma_constants();
        lemma_value_order(zero(), y);
    }
    lemma_fp8_both(n);
    if value(y) == 0real {
        lemma_value_order(y, zero());
        assert(mag(y) == 0 && n == 0);
        lemma_fp8_real(0);
    }
}

/// The nearest code is close.
proof fn lemma_fp8_index_near(y: F32, n: int)
    requires
        finite(y),
        size(value(y)) <= 24001real / 100real,
        n == fp8_index(mag(y)),
        0 <= n < 120,
    ensures
        size(size(value(fp8_value(n))) - size(value(y))) <= 801real / 100real,
{
    assert(units(0) == 0);
    let near = lemma_fp8_near(size(value(y)), 0);
    lemma_fp8_distance(y, n, near);
    lemma_fp8_real(near);
}

/// A code and the one with the other sign.
proof fn lemma_fp8_both(n: int)
    requires
        0 <= n < 120,
    ensures
        finite(fp8_value(n)),
        finite(fp8_value(n + 128)),
        0real <= value(fp8_value(n)) <= 240real,
        value(fp8_value(n + 128)) == -value(fp8_value(n)),
{
    lemma_fp8_real(n);
    lemma_fp8_real(n + 128);
    assert((n + 128) % 128 == n && n % 128 == n);
    lemma_units_most(n);
}

proof fn lemma_units_most(c: int)
    requires
        0 <= c < 120,
    ensures
        0 <= units(c) <= 122880,
    decreases 120 - c,
{
    lemma2_to64();
    lemma_units_at(14, 7);
    lemma_pow2_pos((c / 8 - 1) as nat);
    if c >= 8 {
        assert((8 + c % 8) * pow2((c / 8 - 1) as nat) >= 0) by (nonlinear_arith)
            requires
                c % 8 >= 0,
                pow2((c / 8 - 1) as nat) > 0,
        ;
    }
    if c < 119 {
        lemma_fp8_gap(c);
        lemma_units_most(c + 1);
    }
}

#[verifier::spinoff_prover]
proof fn lemma_fp8_error<A: Arith>(group: Seq<F32>, i: int)
    requires
        accurate::<A>(),
        all_finite(group),
        0 <= i < group.len(),
        1real / 100000000real <= value(max_abs(group, group.len() as int))
            <= 1000000000000000000000000000000real,
    ensures
        ({
            let r = fmul::<A>(
                fp8_value(fp8_group_code::<A>(group, group[i])),
                of_bf16(bf16_of(fp8_scale::<A>(group))),
            );
            &&& finite(r)
            &&& size(value(r) - value(group[i])) <= 42real / 1000real * value(
                max_abs(group, group.len() as int),
            )
            &&& value(group[i]) >= 0real ==> value(r) >= 0real
            &&& value(group[i]) <= 0real ==> value(r) <= 0real
        }),
{
    let (mx, k, v) = (max_abs(group, group.len() as int), F32 { bits: 0x4370_0000 }, group[i]);
    let e = eps();
    lemma_constants();
    lemma_group_top(group);
    lemma_slack(value(mx));
    assert(size(value(v)) <= value(mx));
    lemma_scaled::<A>(mx, k, v);
    let s = fdiv::<A>(mx, k);
    assert(fp8_scale::<A>(group) == s);
    let y = fmul::<A>(v, fdiv::<A>(one(), s));
    let (m, sv, yv, vv) = (value(mx), value(s), value(y), value(v));
    let x = vv / sv;
    assert(size(sv * 240real - m) <= m / 1000000real) by (nonlinear_arith)
        requires
            size(sv * 240real - m) <= 2real * e * m,
            e == 1real / 16777216real,
            m > 0real,
    ;
    assert(size(yv) <= 24001real / 100real);
    lemma_fp8_code(y);
    let code = fp8_group_code::<A>(group, v);
    let d = value(fp8_value(code));
    assert(size(d - x) <= 802real / 100real);
    assert(size(d * sv - vv) <= 802real / 100real * sv) by (nonlinear_arith)
        requires
            size(d - x) <= 802real / 100real,
            x * sv == vv,
            sv > 0real,
    ;
    lemma_decoded::<A>(s, fp8_value(code), vv, 240real, 802real / 100real);
    assert(sv * (802real / 100real + 240real / 128real + 1real / 1000real) <= 42real / 1000real * m)
        by (nonlinear_arith)
        requires
            sv * 240real <= m + m / 1000000real,
            m > 0real,
    ;
}

/// A table of eight-bit floating-point numbers gives each number of a group of finite numbers back
/// to within 42 thousandths of the largest absolute value of the group, where that is neither tiny
/// nor huge, and never with the opposite sign.
pub proof fn law_fp8_error<A: Arith>(
    vals: Seq<F32>,
    out_dim: int,
    in_dim: int,
    packed: Seq<u8>,
    scales: Seq<u16>,
    row: int,
    j: int,
)
    requires
        accurate::<A>(),
        0 <= row < out_dim,
        0 <= j < in_dim / 128 * 128,
        out_dim * in_dim <= vals.len(),
        fp8_encodes::<A>(vals, out_dim, in_dim, packed, scales),
        all_finite(cells(vals, in_dim, row, j / 128 * 128, 128)),
        1real / 100000000real <= value(max_abs(cells(vals, in_dim, row, j / 128 * 128, 128), 128))
            <= 1000000000000000000000000000000real,
    ensures
        ({
            let v = value(vals[row * in_dim + j]);
            let r = fp8_entry::<A>(packed, scales, in_dim, row * in_dim + j);
            &&& finite(r)
            &&& size(value(r) - v) <= 42real / 1000real * value(
                max_abs(cells(vals, in_dim, row, j / 128 * 128, 128), 128),
            )
            &&& v >= 0real ==> value(r) >= 0real
            &&& v <= 0real ==> value(r) <= 0real
        }),
{
    law_fp8_round_trip::<A>(vals, out_dim, in_dim, packed, scales, row, j);
    lemma_fp8_cell(vals, out_dim, in_dim, row, j);
    lemma_fp8_error::<A>(cells(vals, in_dim, row, j / 128 * 128, 128), j % 128);
}

proof fn lemma_fp8_cell(vals: Seq<F32>, out_dim: int, in_dim: int, row: int, j: int)
    requires
        0 <= row < out_dim,
        0 <= j < in_dim / 128 * 128,
        out_dim * in_dim <= vals.len(),
    ensures
        cells(vals, in_dim, row, j / 128 * 128, 128).len() == 128,
        cells(vals, in_dim, row, j / 128 * 128, 128)[j % 128] == vals[row * in_dim + j],
{
    lemma_cell(row, out_dim, in_dim);
}

/// The smallest and the largest of finite numbers.
proof fn lemma_extremes(s: Seq<F32>, n: int)
    requires
        all_finite(s),
        1 <= n <= s.len(),
    ensures
        finite(least(s, n)),
        finite(greatest(s, n)),
        forall|i: int| 0 <= i < n ==> value(least(s, n)) <= value(#[trigger] s[i]),
        forall|i: int| 0 <= i < n ==> value(#[trigger] s[i]) <= value(greatest(s, n)),
    decreases n,
{
    assert(finite(s[n - 1]));
    if n > 1 {
        lemma_extremes(s, n - 1);
        let (a, b, x) = (least(s, n - 1), greatest(s, n - 1), s[n - 1]);
        lemma_value_order(a, x);
        lemma_value_order(x, a);
        lemma_value_order(b, x);
        lemma_value_order(x, b);
    }
}

/// A bias on its way to bfloat16 and back.
proof fn lemma_bf16_bias(x: F32)
    requires
        finite(x),
        value(x) == 0real || 1real / 1000000000000000000000000000000real <= size(value(x))
            <= 1000000000000000000000000000000real,
    ensures
        ({
            let b = of_bf16(bf16_of(x));
            &&& finite(b)
            &&& size(value(b) - value(x)) <= size(value(x)) / 128real
        }),
{
    lemma_value_order(x, zero());
    if value(x) == 0real {
        assert(mag(x) == 0);
        assert(of_bf16(bf16_of(x)) == x);
    } else {
        lemma_bf16_scale(x);
    }
}

/// The code of a number of a group is close to the number's distance from the smallest in steps.
#[verifier::spinoff_prover]
proof fn lemma_int4_code<A: Arith>(group: Seq<F32>, i: int)
    requires
        accurate::<A>(),
        all_finite(group),
        0 <= i < group.len(),
        ({
            let (l, h) = (
                value(least(group, group.len() as int)),
                value(greatest(group, group.len() as int)),
            );
            1real / 100000000000000000000real <= h - l <= 2000000000000000000000000000000real
        }),
    ensures
        ({
            let l = value(least(group, group.len() as int));
            let range = value(greatest(group, group.len() as int)) - l;
            let (s, q) = (int4_scale::<A>(group), int4_code::<A>(group, group[i]));
            let far = value(group[i]) - l;
            &&& finite(s)
            &&& value(s) > 0real
            &&& size(15real * value(s) - range) <= range / 1000000real
            &&& 0 <= q <= 15
            &&& size(((q as int) as real) * value(s) - far) <= 5001real / 10000real * value(s)
                + range / 1000000real
        }),
{
    lemma_constants();
    lemma_unit();
    lemma_largest_finite();
    lemma_extremes(group, group.len() as int);
    let e = eps();
    let (lo, hi, v) = (
        least(group, group.len() as int),
        greatest(group, group.len() as int),
        group[i],
    );
    assert(finite(v));
    let (range, far) = (value(hi) - value(lo), value(v) - value(lo));
    assert(0real <= far <= range);
    lemma_value_order(hi, lo);
    let wide = fsub::<A>(hi, lo);
    lemma_sums::<A>(hi, lo);
    assert(range * e >= dust());
    lemma_relative(wide, range);
    let d = fsub::<A>(v, lo);
    lemma_sums::<A>(v, lo);
    assert(far * e <= range * e) by (nonlinear_arith)
        requires
            far <= range,
            e == 1real / 16777216real,
    ;
    assert(finite(d));
    lemma_value_order(zero(), d);
    let (wv, dv) = (value(wide), value(d));
    assert(size(dv - far) <= range * e + dust());
    assert(dv <= wv * (1real + 4real * e)) by (nonlinear_arith)
        requires
            dv <= range + range * e + range * e / 2real,
            wv >= range - 2real * e * range,
            range > 0real,
            e == 1real / 16777216real,
    ;
    lemma_scaled::<A>(wide, fifteen(), d);
    let s = fdiv::<A>(wide, fifteen());
    assert(int4_scale::<A>(group) == s);
    let y = fmul::<A>(d, fdiv::<A>(one(), s));
    let (sv, yv) = (value(s), value(y));
    let x = dv / sv;
    assert(size(sv * 15real - wv) <= wv / 4000000real) by (nonlinear_arith)
        requires
            size(sv * 15real - wv) <= 2real * e * wv,
            wv > 0real,
            e == 1real / 16777216real,
    ;
    assert(size(wv - range) <= range / 4000000real) by (nonlinear_arith)
        requires
            size(wv - range) <= 2real * e * range,
            range > 0real,
            e == 1real / 16777216real,
    ;
    let z = fadd::<A>(y, half());
    lemma_sums::<A>(y, half());
    lemma_value_order(zero(), z);
    let zv = value(z);
    assert(size(zv - (yv + 1real / 2real)) <= 1real / 1000000real);
    lemma_to_i32::<A>(z);
    let n = fto_i32::<A>(z) as int;
    assert(0 <= n <= 15);
    let q = n as real;
    assert(size(q - x) <= 5001real / 10000real);
    assert(size(q * sv - dv) <= 5001real / 10000real * sv) by (nonlinear_arith)
        requires
            size(q - x) <= 5001real / 10000real,
            x * sv == dv,
            sv > 0real,
    ;
    assert(int4_code::<A>(group, v) == n);
}

/// What the encoding of a number of a group as a four-bit integer gives back.
pub open spec fn int4_back<A: Arith>(group: Seq<F32>, v: F32) -> F32 {
    int4_value::<A>(
        int4_code::<A>(group, v),
        bf16_of(int4_scale::<A>(group)),
        bf16_of(least(group, group.len() as int)),
    )
}

/// The parts of the error of a number that comes back from a four-bit integer, added up.
proof fn lemma_int4_total(
    v: real,
    l: real,
    range: real,
    s: real,
    steps: real,
    stored: real,
    product: real,
    bias: real,
    r: real,
)
    requires
        range > 0real,
        size(15real * s - range) <= range / 1000000real,
        size(steps - (v - l)) <= 5001real / 10000real * s + range / 1000000real,
        size(stored - steps) <= 15real * (s / 128real),
        size(product - stored) <= 2real * range / 1000000real,
        size(bias - l) <= size(l) / 128real,
        size(r - (product + bias)) <= (range + size(l)) / 1000000real + range / 1000000real,
    ensures
        size(r - v) <= 51real / 100real * range / 15real + 101real / 100real * (range + size(l))
            / 128real,
{
}

/// A code times the stored scale.
proof fn lemma_int4_product<A: Arith>(n: u32, s: F32, range: real)
    requires
        accurate::<A>(),
        finite(s),
        value(s) > 0real,
        n <= 15,
        1real / 100000000000000000000real <= range <= 2000000000000000000000000000000real,
        size(15real * value(s) - range) <= range / 1000000real,
    ensures
        ({
            let q = (n as int) as real;
            let a = of_bf16(bf16_of(s));
            let p = fmul::<A>(ffrom_int::<A>(n as i64), a);
            &&& finite(p)
            &&& size(q * value(a) - q * value(s)) <= 15real * (value(s) / 128real)
            &&& size(value(p) - q * value(a)) <= 2real * range / 1000000real
            &&& size(value(p)) <= 2real * range
        }),
{
    lemma_unit();
    lemma_largest_finite();
    lemma_bf16_scale(s);
    let e = eps();
    let (a, f) = (of_bf16(bf16_of(s)), ffrom_int::<A>(n as i64));
    lemma_from_int::<A>(n as i64);
    lemma_product::<A>(f, a);
    let (q, sv, av) = ((n as int) as real, value(s), value(a));
    let pv = q * av;
    assert(size(pv - q * sv) <= 15real * (sv / 128real) && 0real <= pv <= 16real * sv)
        by (nonlinear_arith)
        requires
            pv == q * av,
            0real <= q <= 15real,
            sv > 0real,
            size(av - sv) <= sv / 128real,
    ;
    assert(size(pv) * e <= range / 1000000real) by (nonlinear_arith)
        requires
            size(pv) <= 2real * range,
            e == 1real / 16777216real,
            range > 0real,
    ;
    assert(dust() <= range / 1000000real);
}

#[verifier::spinoff_prover]
proof fn lemma_int4_error<A: Arith>(group: Seq<F32>, i: int)
    requires
        accurate::<A>(),
        all_finite(group),
        0 <= i < group.len(),
        ({
            let (l, h) = (
                value(least(group, group.len() as int)),
                value(greatest(group, group.len() as int)),
            );
            &&& 1real / 100000000000000000000real <= h - l <= 2000000000000000000000000000000real
            &&& l == 0real || 1real / 1000000000000000000000000000000real <= size(l)
                <= 1000000000000000000000000000000real
        }),
    ensures
        ({
            let l = value(least(group, group.len() as int));
            let range = value(greatest(group, group.len() as int)) - l;
            &&& finite(int4_back::<A>(group, group[i]))
            &&& size(value(int4_back::<A>(group, group[i])) - value(group[i])) <= 51real / 100real
                * range / 15real + 101real / 100real * (range + size(l)) / 128real
        }),
{
    lemma_unit();
    lemma_largest_finite();
    lemma_extremes(group, group.len() as int);
    lemma_int4_code::<A>(group, i);
    let (lo, e) = (least(group, group.len() as int), eps());
    let l = value(lo);
    let range = value(greatest(group, group.len() as int)) - l;
    let (s, n) = (int4_scale::<A>(group), int4_code::<A>(group, group[i]));
    lemma_bf16_bias(lo);
    lemma_int4_product::<A>(n, s, range);
    let (a, b) = (of_bf16(bf16_of(s)), of_bf16(bf16_of(lo)));
    let p = fmul::<A>(ffrom_int::<A>(n as i64), a);
    let r = fadd::<A>(p, b);
    lemma_sums::<A>(p, b);
    let t = value(p) + value(b);
    assert(size(t) <= 3real * range + 2real * size(l));
    assert(size(t) * e <= (range + size(l)) / 1000000real) by (nonlinear_arith)
        requires
            size(t) <= 3real * range + 2real * size(l),
            e == 1real / 16777216real,
            range > 0real,
            size(l) >= 0real,
    ;
    assert(dust() <= range / 1000000real);
    let q = (n as int) as real;
    lemma_int4_total(
        value(group[i]),
        l,
        range,
        value(s),
        q * value(s),
        q * value(a),
        value(p),
        value(b),
        value(r),
    );
}

/// A table of four-bit integers gives each number of a group of finite numbers back to within half
/// a step and what bfloat16 takes from scale and bias, where the numbers are not huge, their range
/// is not tiny, and the smallest of them is zero or not tiny.
pub proof fn law_int4_error<A: Arith>(
    vals: Seq<F32>,
    out_dim: int,
    in_dim: int,
    packed: Seq<u32>,
    scales: Seq<u16>,
    biases: Seq<u16>,
    row: int,
    j: int,
)
    requires
        accurate::<A>(),
        0 <= row < out_dim,
        0 <= j < in_dim / 64 * 64,
        rows_fit(vals.len() as int, out_dim, in_dim, in_dim / 64 * 64),
        int4_encodes::<A>(vals, out_dim, in_dim, packed, scales, biases),
        all_finite(group_at(vals, in_dim, row, j)),
        ({
            let group = group_at(vals, in_dim, row, j);
            let (l, h) = (value(least(group, 64)), value(greatest(group, 64)));
            &&& -1000000000000000000000000000000real <= l
            &&& h <= 1000000000000000000000000000000real
            &&& 1real / 100000000000000000000real <= h - l
            &&& l == 0real || 1real / 1000000000000000000000000000000real <= size(l)
        }),
    ensures
        ({
            let group = group_at(vals, in_dim, row, j);
            let l = value(least(group, 64));
            let range = value(greatest(group, 64)) - l;
            let r = int4_table::<A>(packed, scales, biases, out_dim, in_dim, 64)[row * in_dim + j];
            &&& finite(r)
            &&& size(value(r) - value(vals[row * in_dim + j])) <= 51real / 100real * range / 15real
                + 101real / 100real * (range + size(l)) / 128real
        }),
{
    law_int4_round_trip::<A>(vals, out_dim, in_dim, packed, scales, biases, row, j);
    law_int4_table::<A>(packed, scales, biases, out_dim, in_dim, 64, row, j);
    let group = group_at(vals, in_dim, row, j);
    lemma_row_fits(vals.len() as int, row, out_dim, in_dim, in_dim / 64 * 64);
    assert(group.len() == 64 && group[j % 64] == vals[row * in_dim + j]);
    lemma_int4_error::<A>(group, j % 64);
}

} // verus!
