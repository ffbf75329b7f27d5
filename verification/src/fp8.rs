//! Eight-bit floating point (sign, four exponent bits, three fraction bits) with a scale for each
//! group of 128 weights.

use crate::bf16::{bf16_of, bf16_to_f32, f32_to_bf16_u16_single, of_bf16};
use crate::float::{
    Arith, F32, deterministic, fdiv, flt, fmul, mag, magnitude, one, sign_bit, zero,
};
use crate::grid::{cells, lemma_cell, lemma_flat, lemma_row_fits, rows_fit};
use crate::int8::{largest_abs, max_abs};
use vstd::arithmetic::power2::{lemma2_to64, lemma_pow2_adds, lemma_pow2_pos, pow2};
use vstd::prelude::*;
use vstd::slice::slice_subrange;

verus! {

/// Numbers that share a scale.
pub const FP8_GROUP_SIZE: usize = 128;

/// The absolute value of a code in units of 1/512. The low three bits are the fraction `m`, the
/// four bits above them the exponent `e`: `2^(e-7) * (1 + m/8)`, and `2^-6 * m/8` where the
/// exponent is zero. The codes with the highest exponent stand for the largest value, 240.
pub open spec fn units(c: int) -> int {
    if c < 8 {
        c
    } else if c < 120 {
        (8 + c % 8) * pow2((c / 8 - 1) as nat)
    } else {
        122880
    }
}

/// The bits of the absolute value of a code.
pub open spec fn fp8_bits(c: int) -> int {
    if c == 0 {
        0
    } else if c == 1 {
        0x3B00_0000
    } else if c == 2 {
        0x3B80_0000
    } else if c == 3 {
        0x3BC0_0000
    } else if c < 8 {
        0x3C00_0000 + (c - 4) * 0x20_0000
    } else if c < 120 {
        (c + 960) * 0x10_0000
    } else {
        0x4370_0000
    }
}

/// The number that an eight-bit code stands for.
pub open spec fn fp8_value(code: int) -> F32 {
    F32 {
        bits: (fp8_bits(code % 128) + if code >= 128 {
            0x8000_0000int
        } else {
            0int
        }) as u32,
    }
}

/// The number that a byte stands for.
pub fn fp8_e4m3_to_f32(byte: u8) -> (r: F32)
    ensures
        r == fp8_value(byte as int),
{
    let c: u32 = (byte % 128) as u32;
    let m: u32 = if c == 0 {
        0
    } else if c == 1 {
        0x3B00_0000
    } else if c == 2 {
        0x3B80_0000
    } else if c == 3 {
        0x3BC0_0000
    } else if c < 8 {
        0x3C00_0000 + (c - 4) * 0x20_0000
    } else if c < 120 {
        (c + 960) * 0x10_0000
    } else {
        0x4370_0000
    };
    if byte >= 128 {
        F32 { bits: m + 0x8000_0000 }
    } else {
        F32 { bits: m }
    }
}

/// The numbers of all bytes.
pub fn fp8_e4m3_lut() -> (r: Vec<F32>)
    ensures
        r@ == Seq::new(256, |i: int| fp8_value(i)),
{
    let mut lut: Vec<F32> = Vec::new();
    for i in 0..256u16
        invariant
            lut@ == Seq::new(i as nat, |k: int| fp8_value(k)),
    {
        lut.push(fp8_e4m3_to_f32(i as u8));
    }
    lut
}

proof fn lemma_bits_range(c: int)
    requires
        0 <= c < 128,
    ensures
        0 <= fp8_bits(c) <= 0x4370_0000,
{
}

proof fn lemma_pow(k: nat)
    requires
        k <= 13,
    ensures
        pow2((120 + k) as nat) * 0x10_0000 == pow2(k) * pow2(140),
        pow2(k) >= 1,
{
    lemma2_to64();
    lemma_pow2_adds(k, 140);
    lemma_pow2_adds((120 + k) as nat, 20);
    lemma_pow2_pos(k);
}

/// The value of each code is what its bits say, and its sign is its highest bit.
pub proof fn law_fp8_value(code: int)
    requires
        0 <= code < 256,
    ensures
        magnitude(fp8_value(code)) == units(code % 128) * pow2(140),
        sign_bit(fp8_value(code)) == (code >= 128),
{
    let c = code % 128;
    let x = fp8_value(code);
    lemma_bits_range(c);
    assert(mag(x) == fp8_bits(c));
    lemma2_to64();
    lemma_pow2_adds(117, 23);
    lemma_pow2_adds(118, 22);
    lemma_pow2_adds(119, 21);
    if c < 8 {
        let u = pow2(140) as int;
        assert(units(c) * u == if c == 0 {
            0
        } else if c == 1 {
            u
        } else if c == 2 {
            2 * u
        } else if c == 3 {
            3 * u
        } else if c == 4 {
            4 * u
        } else if c == 5 {
            5 * u
        } else if c == 6 {
            6 * u
        } else {
            7 * u
        }) by (nonlinear_arith)
            requires
                units(c) == c,
                0 <= c < 8,
        ;
        if c == 0 {
            assert(magnitude(x) == 0);
        } else if c == 1 {
            assert(magnitude(x) == 0x80_0000 * pow2(117));
        } else if c == 2 {
            assert(magnitude(x) == 0x80_0000 * pow2(118));
        } else if c == 3 {
            assert(magnitude(x) == 0xC0_0000 * pow2(118));
        } else if c == 4 {
            assert(magnitude(x) == 0x80_0000 * pow2(119));
        } else if c == 5 {
            assert(magnitude(x) == 0xA0_0000 * pow2(119));
        } else if c == 6 {
            assert(magnitude(x) == 0xC0_0000 * pow2(119));
        } else {
            assert(magnitude(x) == 0xE0_0000 * pow2(119));
        }
    } else {
        let d = if c < 120 {
            c
        } else {
            119
        };
        let e = d / 8;
        let m = d % 8;
        assert(fp8_bits(c) == (d + 960) * 0x10_0000);
        assert(fp8_bits(c) / 0x80_0000 == e + 120);
        assert(fp8_bits(c) % 0x80_0000 == m * 0x10_0000);
        let p = pow2((e + 119) as nat) as int;
        assert(magnitude(x) == (0x80_0000 + m * 0x10_0000) * p);
        lemma_pow((e - 1) as nat);
        let q = pow2((e - 1) as nat) as int;
        let u = pow2(140) as int;
        assert((0x80_0000 + m * 0x10_0000) * p == (8 + m) * q * u) by (nonlinear_arith)
            requires
                p * 0x10_0000 == q * u,
        ;
        assert(units(c) == (8 + m) * q) by {
            if c >= 120 {
                assert((8 + m) * q == 122880) by (nonlinear_arith)
                    requires
                        m == 7,
                        q == 8192,
                ;
            }
        }
    }
}

/// The code, without sign, for an absolute value given by its bits. From 1/64 on, codes are the
/// numbers themselves with fewer fraction bits; below, they count units of 1/512; a value halfway
/// between two codes takes the lower one.
pub open spec fn fp8_index(m: int) -> int {
    let f = 0x80_0000 + m % 0x80_0000;
    if m >= 0x4370_0000 {
        119
    } else if m >= 0x3C80_0000 {
        (m + 0x7_FFFF) / 0x10_0000 - 960
    } else if m >= 0x3C00_0000 {
        (f + 0xF_FFFF) / 0x20_0000
    } else if m >= 0x3B80_0000 {
        (f + 0x1F_FFFF) / 0x40_0000
    } else if m >= 0x3B00_0000 {
        (f + 0x3F_FFFF) / 0x80_0000
    } else if m >= 0x3A80_0000 {
        (f + 0x7F_FFFF) / 0x100_0000
    } else {
        0
    }
}

/// The distance between a number and the value of a code.
pub open spec fn fp8_distance(x: F32, c: int) -> int {
    let d = magnitude(x) - units(c) * pow2(140);
    if d < 0 {
        -d
    } else {
        d
    }
}

/// The units of the code with exponent `e` and fraction `m`; a fraction of eight is the next
/// exponent.
pub proof fn lemma_units_at(e: int, m: int)
    requires
        1 <= e,
        0 <= m <= 8,
        8 * e + m < 120,
    ensures
        units(8 * e + m) == (8 + m) * pow2((e - 1) as nat),
{
    let p = pow2((e - 1) as nat) as int;
    if m == 8 {
        lemma2_to64();
        lemma_pow2_adds((e - 1) as nat, 1);
        assert((8 * e + 8) / 8 == e + 1 && (8 * e + 8) % 8 == 0);
        assert((8 + m) * p == 8 * (2 * p)) by (nonlinear_arith)
            requires
                m == 8,
        ;
    } else {
        assert((8 * e + m) / 8 == e && (8 * e + m) % 8 == m);
    }
}

proof fn lemma_units_step(c: int)
    requires
        0 <= c < 119,
    ensures
        units(c) < units(c + 1),
{
    lemma2_to64();
    if c >= 8 {
        let (e, m) = (c / 8, c % 8);
        let p = pow2((e - 1) as nat) as int;
        lemma_pow2_pos((e - 1) as nat);
        lemma_units_at(e, m);
        lemma_units_at(e, m + 1);
        assert((8 + m) * p < (8 + (m + 1)) * p) by (nonlinear_arith)
            requires
                p > 0,
        ;
    } else if c == 7 {
        lemma_units_at(1, 0);
    }
}

proof fn lemma_units_increase(a: int, b: int)
    requires
        0 <= a <= b < 120,
    ensures
        units(a) <= units(b),
    decreases b - a,
{
    if a < b {
        lemma_units_step(b - 1);
        lemma_units_increase(a, b - 1);
    }
}

/// What the two neighbours of a code say of a number that is nearest to it.
spec fn between(x: F32, c: int) -> bool {
    let u = pow2(140) as int;
    &&& c < 119 ==> 2 * magnitude(x) <= (units(c) + units(c + 1)) * u
    &&& c > 0 ==> 2 * magnitude(x) > (units(c - 1) + units(c)) * u
}

proof fn lemma_between_small(x: F32)
    requires
        mag(x) < 0x3C80_0000,
    ensures
        0 <= fp8_index(mag(x)) <= 8,
        between(x, fp8_index(mag(x))),
{
    let m = mag(x);
    let e = m / 0x80_0000;
    let f = 0x80_0000 + m % 0x80_0000;
    let c = fp8_index(m);
    let u = pow2(140) as int;
    lemma2_to64();
    lemma_pow2_pos(140);
    lemma_pow2_adds(119, 21);
    lemma_pow2_adds(118, 22);
    lemma_pow2_adds(117, 23);
    lemma_pow2_adds(116, 24);
    lemma_units_at(1, 0);
    lemma_units_at(1, 1);
    if m < 0x3A80_0000 {
        let y = F32 { bits: 0x3A80_0000 };
        crate::float::law_magnitude_increases(x, y);
        assert(magnitude(y) == 0x80_0000 * pow2(116));
        assert((units(0) + units(1)) * u == u) by (nonlinear_arith)
            requires
                units(0) + units(1) == 1,
        ;
        assert(c == 0);
    } else {
        let s: int = if e == 120 {
            0x20_0000
        } else if e == 119 {
            0x40_0000
        } else if e == 118 {
            0x80_0000
        } else {
            0x100_0000
        };
        let p = pow2((e - 1) as nat) as int;
        assert(e == 120 || e == 119 || e == 118 || e == 117);
        assert(u == s * p);
        assert(magnitude(x) == f * p);
        assert(2 * f <= (2 * c + 1) * s && 2 * f > (2 * c - 1) * s);
        assert(p > 0);
        assert(2 * (f * p) <= (2 * c + 1) * (s * p) && 2 * (f * p) > (2 * c - 1) * (s * p))
            by (nonlinear_arith)
            requires
                2 * f <= (2 * c + 1) * s,
                2 * f > (2 * c - 1) * s,
                p > 0,
        ;
        assert(0 <= c <= 8);
        assert(units(c) + units(c + 1) == 2 * c + 1);
        if c > 0 {
            assert(units(c - 1) + units(c) == 2 * c - 1);
        }
    }
}

proof fn lemma_between_normal(x: F32)
    requires
        0x3C80_0000 <= mag(x) < 0x4370_0000,
    ensures
        8 <= fp8_index(mag(x)) <= 119,
        between(x, fp8_index(mag(x))),
{
    let m = mag(x);
    let c = fp8_index(m);
    let u = pow2(140) as int;
    let e = m / 0x80_0000;
    let f = m % 0x80_0000;
    let q = (f + 0x7_FFFF) / 0x10_0000;
    assert(0 <= q <= 8);
    assert(c == (e - 120) * 8 + q);
    let p = pow2((e - 1) as nat) as int;
    let k = (e - 121) as nat;
    assert(k <= 13);
    lemma_pow(k);
    let w = pow2(k) as int;
    assert(p * 0x10_0000 == w * u);
    assert(magnitude(x) == (0x80_0000 + f) * p);
    lemma2_to64();
    lemma_pow2_adds(k, 1);
    lemma_pow2_pos((e - 1) as nat);
    lemma_pow2_pos(140);
    lemma_units_at(e - 120, q);
    assert(2 * f <= (2 * q + 1) * 0x10_0000);
    assert(2 * f > (2 * q - 1) * 0x10_0000);
    if c < 119 {
        assert(units(c + 1) >= (9 + q) * w) by {
            if q == 8 {
                lemma_units_at(e - 119, 1);
                assert((9 + q) * w <= 9 * (2 * w)) by (nonlinear_arith)
                    requires
                        q == 8,
                        w > 0,
                ;
            } else {
                lemma_units_at(e - 120, q + 1);
            }
        }
        let n = units(c + 1);
        assert(2 * ((0x80_0000 + f) * p) <= ((8 + q) * w + n) * u) by (nonlinear_arith)
            requires
                2 * f <= (2 * q + 1) * 0x10_0000,
                p * 0x10_0000 == w * u,
                n >= (9 + q) * w,
                u > 0,
                p > 0,
        {
            assert(2 * (0x80_0000 + f) <= (17 + 2 * q) * 0x10_0000);
            assert(2 * ((0x80_0000 + f) * p) <= (17 + 2 * q) * (0x10_0000 * p));
            assert((17 + 2 * q) * (w * u) == ((8 + q) * w + (9 + q) * w) * u);
            assert(((8 + q) * w + (9 + q) * w) * u <= ((8 + q) * w + n) * u);
        }
    }
    assert(units(c - 1) <= (7 + q) * w || (q == 0 && units(c - 1) < 8 * w)) by {
        if q > 0 {
            lemma_units_at(e - 120, q - 1);
        } else if e == 121 {
            assert(w == 1);
        } else {
            lemma_pow2_adds((k - 1) as nat, 1);
            lemma_pow2_pos((k - 1) as nat);
            lemma_units_at(e - 121, 7);
        }
    }
    lemma_below(f, p, w, u, q, units(c - 1));
}

proof fn lemma_below(f: int, p: int, w: int, u: int, q: int, n: int)
    requires
        p * 0x10_0000 == w * u,
        u > 0,
        p > 0,
        f >= 0,
        2 * f > (2 * q - 1) * 0x10_0000,
        n <= (7 + q) * w || (q == 0 && n < 8 * w),
    ensures
        2 * ((0x80_0000 + f) * p) > (n + (8 + q) * w) * u,
{
    if n <= (7 + q) * w {
        assert(2 * ((0x80_0000 + f) * p) > (n + (8 + q) * w) * u) by (nonlinear_arith)
            requires
                2 * f > (2 * q - 1) * 0x10_0000,
                p * 0x10_0000 == w * u,
                n <= (7 + q) * w,
                u > 0,
                p > 0,
        {
            assert(2 * (0x80_0000 + f) > (15 + 2 * q) * 0x10_0000);
            assert(2 * ((0x80_0000 + f) * p) > (15 + 2 * q) * (0x10_0000 * p));
            assert((15 + 2 * q) * (w * u) == ((8 + q) * w + (7 + q) * w) * u);
            assert(((8 + q) * w + n) * u <= ((8 + q) * w + (7 + q) * w) * u);
        }
    } else {
        assert(2 * ((0x80_0000 + f) * p) > (n + 8 * w) * u) by (nonlinear_arith)
            requires
                f >= 0,
                p * 0x10_0000 == w * u,
                n < 8 * w,
                u > 0,
                p > 0,
        {
            assert(2 * ((0x80_0000 + f) * p) >= 16 * (0x10_0000 * p));
            assert(16 * (w * u) == (8 * w + 8 * w) * u);
            assert((n + 8 * w) * u < (8 * w + 8 * w) * u);
        }
    }
}

/// The chosen code is the nearest one; of two equally near, the lower.
pub proof fn law_fp8_nearest(x: F32, code: int)
    requires
        0 <= code < 120,
    ensures
        0 <= fp8_index(mag(x)) < 120,
        fp8_distance(x, fp8_index(mag(x))) <= fp8_distance(x, code),
        fp8_distance(x, fp8_index(mag(x))) == fp8_distance(x, code) ==> fp8_index(mag(x)) <= code,
{
    let c = fp8_index(mag(x));
    let u = pow2(140) as int;
    lemma_pow2_pos(140);
    if mag(x) < 0x3C80_0000 {
        lemma_between_small(x);
    } else if mag(x) < 0x4370_0000 {
        lemma_between_normal(x);
    } else {
        let y = fp8_value(119);
        law_fp8_value(119);
        assert(mag(y) == 0x4370_0000);
        if mag(x) > mag(y) {
            crate::float::law_magnitude_increases(y, x);
        }
        lemma_units_step(118);
        assert(magnitude(x) >= magnitude(y));
        let (a, b) = (units(118), units(119));
        assert((a + b) * u < 2 * (b * u)) by (nonlinear_arith)
            requires
                a < b,
                u > 0,
        ;
        assert(between(x, c));
    }
    let (a, b) = (units(c), units(code));
    if code > c {
        lemma_units_increase(c + 1, code);
        lemma_units_step(c);
        let n = units(c + 1);
        assert((a + n) * u <= (a + b) * u && (a + b) * u == a * u + b * u && a * u <= b * u)
            by (nonlinear_arith)
            requires
                n <= b,
                a < n,
                u > 0,
        ;
        assert(2 * magnitude(x) <= a * u + b * u);
    } else if code < c {
        lemma_units_increase(code, c - 1);
        lemma_units_step(c - 1);
        let n = units(c - 1);
        assert((n + a) * u >= (a + b) * u && (a + b) * u == a * u + b * u && b * u < a * u)
            by (nonlinear_arith)
            requires
                n >= b,
                n < a,
                u > 0,
        ;
        assert(2 * magnitude(x) > a * u + b * u);
    }
}

/// The code of a number: the nearest one, with the sign in the highest bit.
pub open spec fn fp8_code(v: F32) -> int {
    fp8_index(mag(v)) + if flt(v, zero()) {
        128int
    } else {
        0int
    }
}

/// Encodes one number; what is not a number takes the largest code.
pub fn f32_to_fp8_e4m3(val: F32) -> (r: u8)
    ensures
        r == fp8_code(val),
        r % 128 < 120,
{
    let m: u32 = val.bits % 0x8000_0000;
    let f: u32 = 0x80_0000 + m % 0x80_0000;
    let c: u32 = if m >= 0x4370_0000 {
        119
    } else if m >= 0x3C80_0000 {
        (m + 0x7_FFFF) / 0x10_0000 - 960
    } else if m >= 0x3C00_0000 {
        (f + 0xF_FFFF) / 0x20_0000
    } else if m >= 0x3B80_0000 {
        (f + 0x1F_FFFF) / 0x40_0000
    } else if m >= 0x3B00_0000 {
        (f + 0x3F_FFFF) / 0x80_0000
    } else if m >= 0x3A80_0000 {
        (f + 0x7F_FFFF) / 0x100_0000
    } else {
        0
    };
    if val.less(zero()) {
        c as u8 + 128
    } else {
        c as u8
    }
}

/// Encoding the value of a code gives the code back, but for minus zero, which loses its sign, and
/// the codes with the highest exponent, which all have the largest value.
pub proof fn law_fp8_code_round_trip(code: int)
    requires
        0 <= code < 256,
        code % 128 < 120,
        code != 128,
    ensures
        fp8_code(fp8_value(code)) == code,
{
    lemma_bits_range(code % 128);
    assert(mag(fp8_value(code)) == fp8_bits(code % 128));
}

/// The scale of a group: its largest absolute value, but at least 1e-8, maps to 240.
pub open spec fn fp8_scale<A: Arith>(group: Seq<F32>) -> F32 {
    let m = max_abs(group, group.len() as int);
    let tiny = F32 { bits: 0x322B_CC77 };
    fdiv::<A>(
        if flt(m, tiny) {
            tiny
        } else {
            m
        },
        F32 { bits: 0x4370_0000 },
    )
}

/// The code of a number of a group: that of the number in units of the scale.
pub open spec fn fp8_group_code<A: Arith>(group: Seq<F32>, v: F32) -> int {
    fp8_code(fmul::<A>(v, fdiv::<A>(one(), fp8_scale::<A>(group))))
}

/// The `k`-th group of a table, counted row by row.
pub open spec fn fp8_group(vals: Seq<F32>, in_dim: int, k: int) -> Seq<F32> {
    cells(vals, in_dim, k / (in_dim / 128), k % (in_dim / 128) * 128, 128)
}

/// The byte at flat index `k` of an encoded table: zero behind the last whole group of a row.
pub open spec fn fp8_byte<A: Arith>(vals: Seq<F32>, in_dim: int, k: int) -> int {
    let row = k / in_dim;
    let j = k % in_dim;
    if j < in_dim / 128 * 128 {
        fp8_group_code::<A>(cells(vals, in_dim, row, j / 128 * 128, 128), vals[k])
    } else {
        0
    }
}

/// Bytes and scales are the encoding of a table of `out_dim` rows of `in_dim` numbers.
pub open spec fn fp8_encodes<A: Arith>(
    vals: Seq<F32>,
    out_dim: int,
    in_dim: int,
    packed: Seq<u8>,
    scales: Seq<u16>,
) -> bool {
    &&& packed.len() == out_dim * in_dim
    &&& scales.len() == out_dim * (in_dim / 128)
    &&& forall|k: int|
        0 <= k < packed.len() ==> #[trigger] packed[k] == fp8_byte::<A>(vals, in_dim, k)
    &&& forall|k: int|
        0 <= k < scales.len() ==> #[trigger] scales[k] == bf16_of(
            fp8_scale::<A>(fp8_group(vals, in_dim, k)),
        )
}

/// Scale and codes of one group.
fn quant_group<A: Arith>(group: &[F32]) -> (r: (F32, Vec<u8>))
    requires
        group@.len() == 128,
    ensures
        r.1@.len() == 128,
        deterministic::<A>() ==> r.0 == fp8_scale::<A>(group@),
        deterministic::<A>() ==> forall|j: int|
            0 <= j < 128 ==> #[trigger] r.1@[j] == fp8_group_code::<A>(group@, group@[j]),
{
    let largest: F32 = largest_abs(group);
    let tiny: F32 = F32 { bits: 0x322B_CC77 };
    let top: F32 = if largest.less(tiny) {
        tiny
    } else {
        largest
    };
    let scale: F32 = A::div(top, F32 { bits: 0x4370_0000 });
    let inv: F32 = A::div(one(), scale);
    let mut codes: Vec<u8> = Vec::new();
    for j in 0..128usize
        invariant
            group@.len() == 128,
            codes@.len() == j,
            deterministic::<A>() ==> inv == fdiv::<A>(one(), fp8_scale::<A>(group@)),
            deterministic::<A>() ==> forall|i: int|
                0 <= i < j ==> #[trigger] codes@[i] == fp8_group_code::<A>(group@, group@[i]),
    {
        codes.push(f32_to_fp8_e4m3(A::mul(group[j], inv)));
    }
    (scale, codes)
}

/// Quantizes a table of `out_dim` rows of `in_dim` numbers: codes and scales.
#[verifier::loop_isolation(false)]
pub fn quant_f32_to_fp8_e4m3<A: Arith>(f32_vals: &[F32], out_dim: usize, in_dim: usize) -> (r: (
    Vec<u8>,
    Vec<u16>,
))
    requires
        out_dim * in_dim <= usize::MAX,
        rows_fit(
            f32_vals@.len() as int,
            out_dim as int,
            in_dim as int,
            in_dim as int / 128 * 128,
        ),
    ensures
        r.0@.len() == out_dim * in_dim,
        r.1@.len() == out_dim * (in_dim / 128),
        deterministic::<A>() ==> fp8_encodes::<A>(
            f32_vals@,
            out_dim as int,
            in_dim as int,
            r.0@,
            r.1@,
        ),
{
    let num_groups: usize = in_dim / FP8_GROUP_SIZE;
    let mut packed: Vec<u8> = Vec::new();
    let mut scales: Vec<u16> = Vec::new();
    assert(0 * (in_dim as int) == 0 && 0 * (in_dim as int / 128) == 0);
    assert(f32_vals.len() == f32_vals@.len());
    for row in 0..out_dim
        invariant
            packed@.len() == row * in_dim,
            scales@.len() == row * num_groups,
            deterministic::<A>() ==> fp8_encodes::<A>(
                f32_vals@,
                row as int,
                in_dim as int,
                packed@,
                scales@,
            ),
    {
        proof {
            lemma_cell(row as int, out_dim as int, in_dim as int);
            lemma_cell(row as int, out_dim as int, num_groups as int);
        }
        for g in 0..num_groups
            invariant
                packed@.len() == row * in_dim + g * 128,
                scales@.len() == row * num_groups + g,
                deterministic::<A>() ==> forall|k: int|
                    0 <= k < packed@.len() ==> #[trigger] packed@[k] == fp8_byte::<A>(
                        f32_vals@,
                        in_dim as int,
                        k,
                    ),
                deterministic::<A>() ==> forall|k: int|
                    0 <= k < scales@.len() ==> #[trigger] scales@[k] == bf16_of(
                        fp8_scale::<A>(fp8_group(f32_vals@, in_dim as int, k)),
                    ),
        {
            proof {
                lemma_row_fits(
                    f32_vals@.len() as int,
                    row as int,
                    out_dim as int,
                    in_dim as int,
                    in_dim as int / 128 * 128,
                );
                lemma_flat(row as int, g as int, num_groups as int);
            }
            let g_base: usize = row * in_dim + g * FP8_GROUP_SIZE;
            let group: &[F32] = slice_subrange(f32_vals, g_base, g_base + FP8_GROUP_SIZE);
            assert(group@ == cells(f32_vals@, in_dim as int, row as int, g * 128, 128));
            let (scale, mut codes) = quant_group::<A>(group);
            scales.push(f32_to_bf16_u16_single(scale));
            let ghost before = packed@;
            let ghost added = codes@;
            packed.append(&mut codes);
            proof {
                if deterministic::<A>() {
                    assert forall|k: int| 0 <= k < packed@.len() implies #[trigger] packed@[k]
                        == fp8_byte::<A>(f32_vals@, in_dim as int, k) by {
                        if k < before.len() {
                            assert(packed@[k] == before[k]);
                        } else {
                            let t = k - before.len();
                            lemma_flat(row as int, g * 128 + t, in_dim as int);
                            assert((g * 128 + t) / 128 == g);
                            assert(packed@[k] == added[t]);
                            assert(group@[t] == f32_vals@[k]);
                        }
                    }
                }
            }
        }
        for j in num_groups * FP8_GROUP_SIZE..in_dim
            invariant
                packed@.len() == row * in_dim + j,
                deterministic::<A>() ==> forall|k: int|
                    0 <= k < packed@.len() ==> #[trigger] packed@[k] == fp8_byte::<A>(
                        f32_vals@,
                        in_dim as int,
                        k,
                    ),
        {
            proof {
                lemma_flat(row as int, j as int, in_dim as int);
            }
            packed.push(0);
        }
    }
    (packed, scales)
}

/// The number at flat index `k` of a decoded table: the value of its byte times the scale of its
/// group, and zero behind the last whole group of its row.
pub open spec fn fp8_entry<A: Arith>(
    packed: Seq<u8>,
    scales: Seq<u16>,
    in_dim: int,
    k: int,
) -> F32 {
    let row = k / in_dim;
    let j = k % in_dim;
    if j < in_dim / 128 * 128 {
        fmul::<A>(
            fp8_value(packed[k] as int),
            of_bf16(scales[row * (in_dim / 128) + j / 128]),
        )
    } else {
        zero()
    }
}

/// Decodes a table of `out_dim` rows of `in_dim` numbers.
#[verifier::loop_isolation(false)]
pub fn fp8_e4m3_to_f32_full<A: Arith>(
    packed: &[u8],
    scales: &[u16],
    out_dim: usize,
    in_dim: usize,
) -> (r: Vec<F32>)
    requires
        rows_fit(
            packed@.len() as int,
            out_dim as int,
            in_dim as int,
            in_dim as int / 128 * 128,
        ),
        out_dim * (in_dim / 128) <= scales@.len(),
    ensures
        r@.len() == out_dim * in_dim,
        deterministic::<A>() ==> forall|k: int|
            0 <= k < r@.len() ==> #[trigger] r@[k] == fp8_entry::<A>(
                packed@,
                scales@,
                in_dim as int,
                k,
            ),
{
    let num_groups: usize = in_dim / FP8_GROUP_SIZE;
    let mut result: Vec<F32> = Vec::new();
    assert(0 * (in_dim as int) == 0);
    assert(packed.len() == packed@.len() && scales.len() == scales@.len());
    for row in 0..out_dim
        invariant
            result@.len() == row * in_dim,
            deterministic::<A>() ==> forall|k: int|
                0 <= k < result@.len() ==> #[trigger] result@[k] == fp8_entry::<A>(
                    packed@,
                    scales@,
                    in_dim as int,
                    k,
                ),
    {
        proof {
            lemma_cell(row as int, out_dim as int, in_dim as int);
            lemma_cell(row as int, out_dim as int, num_groups as int);
        }
        for j in 0..in_dim
            invariant
                result@.len() == row * in_dim + j,
                deterministic::<A>() ==> forall|k: int|
                    0 <= k < result@.len() ==> #[trigger] result@[k] == fp8_entry::<A>(
                        packed@,
                        scales@,
                        in_dim as int,
                        k,
                    ),
        {
            proof {
                lemma_flat(row as int, j as int, in_dim as int);
            }
            if j < num_groups * FP8_GROUP_SIZE {
                proof {
                    lemma_row_fits(
                        packed@.len() as int,
                        row as int,
                        out_dim as int,
                        in_dim as int,
                        in_dim as int / 128 * 128,
                    );
                }
                let scale: F32 = bf16_to_f32(scales[row * num_groups + j / FP8_GROUP_SIZE]);
                result.push(A::mul(fp8_e4m3_to_f32(packed[row * in_dim + j]), scale));
            } else {
                result.push(zero());
            }
        }
    }
    result
}

/// What a read gives back of a write: a number of a whole group comes back as the value of its
/// code times the stored scale, and a number behind the last whole group as zero.
pub proof fn law_fp8_round_trip<A: Arith>(
    vals: Seq<F32>,
    out_dim: int,
    in_dim: int,
    packed: Seq<u8>,
    scales: Seq<u16>,
    row: int,
    j: int,
)
    requires
        0 <= row < out_dim,
        0 <= j < in_dim,
        fp8_encodes::<A>(vals, out_dim, in_dim, packed, scales),
    ensures
        fp8_entry::<A>(packed, scales, in_dim, row * in_dim + j) == if j < in_dim / 128 * 128 {
            let group = cells(vals, in_dim, row, j / 128 * 128, 128);
            fmul::<A>(
                fp8_value(fp8_group_code::<A>(group, vals[row * in_dim + j])),
                of_bf16(bf16_of(fp8_scale::<A>(group))),
            )
        } else {
            zero()
        },
{
    let groups = in_dim / 128;
    lemma_flat(row, j, in_dim);
    lemma_cell(row, out_dim, in_dim);
    if j < groups * 128 {
        let g = j / 128;
        lemma_flat(row, g, groups);
        lemma_cell(row, out_dim, groups);
        assert(packed[row * in_dim + j] == fp8_byte::<A>(vals, in_dim, row * in_dim + j));
        assert(scales[row * groups + g] == bf16_of(
            fp8_scale::<A>(fp8_group(vals, in_dim, row * groups + g)),
        ));
    }
}

} // verus!
