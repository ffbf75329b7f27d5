//! Four-bit floating point (sign, two exponent bits, one fraction bit) with a scale for each
//! group of 64 weights.

use crate::bf16::{bf16_of, bf16_to_f32, f32_to_bf16_u16_single, of_bf16};
use crate::float::{
    Arith, F32, deterministic, fabs, fdiv, finite, flt, fmul, law_magnitude_increases, mag,
    magnitude, one, sign_bit, zero,
};
use crate::grid::{cells, lemma_cell, lemma_flat, lemma_row_fits, rows_fit};
use crate::int4::{GROUP_SIZE, int4_group};
use crate::int8::{largest_abs, max_abs};
use crate::nibble::{get_nibble, nibble, push_words};
use vstd::arithmetic::power2::{lemma2_to64, lemma_pow2_adds, lemma_pow2_pos, pow2};
use vstd::prelude::*;
use vstd::slice::slice_subrange;

verus! {

/// The absolute value of a code in halves. The low bit is the fraction `m`, the two bits above it
/// are the exponent `e`: `2^(e-1) * (1 + m/2)`, and `m/2` where the exponent is zero.
pub open spec fn halves(code: int) -> int {
    let e = code / 2 % 4;
    let m = code % 2;
    if e == 0 {
        m
    } else if e == 1 {
        2 + m
    } else if e == 2 {
        2 * (2 + m)
    } else {
        4 * (2 + m)
    }
}

/// The bits of the absolute values 0, 0.5, 1, 1.5, 2, 3, 4 and 6.
pub open spec fn fp4_bits(c: int) -> u32 {
    if c == 0 {
        0x0000_0000
    } else if c == 1 {
        0x3F00_0000
    } else if c == 2 {
        0x3F80_0000
    } else if c == 3 {
        0x3FC0_0000
    } else if c == 4 {
        0x4000_0000
    } else if c == 5 {
        0x4040_0000
    } else if c == 6 {
        0x4080_0000
    } else {
        0x40C0_0000
    }
}

/// The number that a four-bit code stands for.
pub open spec fn fp4_value(code: int) -> F32 {
    let m: u32 = fp4_bits(code % 8);
    if code / 8 % 2 == 1 {
        F32 { bits: (m + 0x8000_0000) as u32 }
    } else {
        F32 { bits: m }
    }
}

/// The number that the low four bits of a word stand for.
pub fn fp4_e2m1_to_f32(nibble: u32) -> (r: F32)
    ensures
        r == fp4_value(nibble as int % 16),
{
    let code: u32 = nibble % 16;
    let m: u32 = match code % 8 {
        0 => 0x0000_0000,
        1 => 0x3F00_0000,
        2 => 0x3F80_0000,
        3 => 0x3FC0_0000,
        4 => 0x4000_0000,
        5 => 0x4040_0000,
        6 => 0x4080_0000,
        _ => 0x40C0_0000,
    };
    if code >= 8 {
        F32 { bits: m + 0x8000_0000 }
    } else {
        F32 { bits: m }
    }
}

/// The value of each code is what its bits say, and its sign is its highest bit.
pub proof fn law_fp4_value(code: int)
    requires
        0 <= code < 16,
    ensures
        magnitude(fp4_value(code)) == halves(code) * pow2(148),
        sign_bit(fp4_value(code)) == (code >= 8),
{
    lemma2_to64();
    lemma_pow2_adds(125, 23);
    lemma_pow2_adds(126, 22);
    lemma_pow2_adds(127, 21);
    lemma_pow2_adds(128, 20);
    let x = fp4_value(code);
    assert(mag(x) == fp4_value(code % 8).bits);
    let c = code % 8;
    assert(halves(code) == halves(c));
    lemma_level(c);
    lemma_pow2_adds(147, 1);
    if c == 0 {
        assert(magnitude(x) == 0);
    } else if c == 1 {
        assert(magnitude(x) == 0x80_0000 * pow2(125));
    } else if c == 2 {
        assert(magnitude(x) == 0x80_0000 * pow2(126));
    } else if c == 3 {
        assert(magnitude(x) == 0xC0_0000 * pow2(126));
    } else if c == 4 {
        assert(magnitude(x) == 0x80_0000 * pow2(127));
    } else if c == 5 {
        assert(magnitude(x) == 0xC0_0000 * pow2(127));
    } else if c == 6 {
        assert(magnitude(x) == 0x80_0000 * pow2(128));
    } else {
        assert(magnitude(x) == 0xC0_0000 * pow2(128));
    }
}

/// The code, without sign, for an absolute value given by its bits: the bits are compared with
/// those of the points halfway between neighbouring values, 0.25, 0.75, 1.25, 1.75, 2.5, 3.5
/// and 5.
pub open spec fn fp4_index(m: int) -> int {
    if m < 0x3E80_0000 {
        0
    } else if m < 0x3F40_0000 {
        1
    } else if m < 0x3FA0_0000 {
        2
    } else if m < 0x3FE0_0000 {
        3
    } else if m < 0x4020_0000 {
        4
    } else if m < 0x4060_0000 {
        5
    } else if m < 0x40A0_0000 {
        6
    } else {
        7
    }
}

/// The distance between a number and the value of a code.
pub open spec fn fp4_distance(x: F32, code: int) -> int {
    let d = magnitude(x) - halves(code) * pow2(148);
    if d < 0 {
        -d
    } else {
        d
    }
}

spec fn point(k: int) -> (u32, int) {
    if k == 1 {
        (0x3E80_0000u32, 1int)
    } else if k == 2 {
        (0x3F40_0000u32, 3int)
    } else if k == 3 {
        (0x3FA0_0000u32, 5int)
    } else if k == 4 {
        (0x3FE0_0000u32, 7int)
    } else if k == 5 {
        (0x4020_0000u32, 10int)
    } else if k == 6 {
        (0x4060_0000u32, 14int)
    } else {
        (0x40A0_0000u32, 20int)
    }
}

proof fn lemma_point(k: int)
    requires
        1 <= k <= 7,
    ensures
        magnitude(F32 { bits: point(k).0 }) == point(k).1 * pow2(147),
{
    lemma2_to64();
    lemma_pow2_adds(124, 23);
    lemma_pow2_adds(125, 22);
    lemma_pow2_adds(126, 21);
    lemma_pow2_adds(127, 20);
    lemma_pow2_adds(128, 19);
    let x = F32 { bits: point(k).0 };
    if k == 1 {
        assert(magnitude(x) == 0x80_0000 * pow2(124));
    } else if k == 2 {
        assert(magnitude(x) == 0xC0_0000 * pow2(125));
    } else if k == 3 {
        assert(magnitude(x) == 0xA0_0000 * pow2(126));
    } else if k == 4 {
        assert(magnitude(x) == 0xE0_0000 * pow2(126));
    } else if k == 5 {
        assert(magnitude(x) == 0xA0_0000 * pow2(127));
    } else if k == 6 {
        assert(magnitude(x) == 0xE0_0000 * pow2(127));
    } else {
        assert(magnitude(x) == 0xA0_0000 * pow2(128));
    }
}

/// The value of a code in units of `2^147` times the smallest number.
spec fn level(c: int, p: int) -> int {
    if c == 0 {
        0
    } else if c == 1 {
        2 * p
    } else if c == 2 {
        4 * p
    } else if c == 3 {
        6 * p
    } else if c == 4 {
        8 * p
    } else if c == 5 {
        12 * p
    } else if c == 6 {
        16 * p
    } else {
        24 * p
    }
}

proof fn lemma_level(c: int)
    requires
        0 <= c < 8,
    ensures
        halves(c) * pow2(148) == level(c, pow2(147) as int),
{
    lemma2_to64();
    lemma_pow2_adds(147, 1);
    let p = pow2(147) as int;
    let h = halves(c);
    assert(h * pow2(148) == 2 * h * p) by (nonlinear_arith)
        requires
            pow2(148) == 2 * p,
    ;
    assert(h == 0 || h == 1 || h == 2 || h == 3 || h == 4 || h == 6 || h == 8 || h == 12);
}

/// The chosen code is the nearest one; of two equally near, the larger.
pub proof fn law_fp4_nearest(x: F32, code: int)
    requires
        0 <= code < 8,
    ensures
        0 <= fp4_index(mag(x)) < 8,
        fp4_distance(x, fp4_index(mag(x))) <= fp4_distance(x, code),
        fp4_distance(x, fp4_index(mag(x))) == fp4_distance(x, code) ==> code <= fp4_index(mag(x)),
{
    let i = fp4_index(mag(x));
    let p = pow2(147) as int;
    lemma2_to64();
    lemma_pow2_adds(147, 1);
    lemma_pow2_pos(147);
    assert(pow2(148) == 2 * p);
    if i > 0 {
        let t = F32 { bits: point(i).0 };
        lemma_point(i);
        if mag(t) < mag(x) {
            law_magnitude_increases(t, x);
        }
        assert(magnitude(t) <= magnitude(x));
    }
    if i < 7 {
        let t = F32 { bits: point(i + 1).0 };
        lemma_point(i + 1);
        law_magnitude_increases(x, t);
    }
    lemma_level(code);
    lemma_level(i);
}

/// The code, without sign, that is nearest to a number that is not negative.
fn nearest_code(norm: F32) -> (r: u32)
    requires
        norm.bits < 0x8000_0000,
    ensures
        r == fp4_index(mag(norm)),
        r < 8,
{
    let m: u32 = norm.bits;
    if m < 0x3E80_0000 {
        0
    } else if m < 0x3F40_0000 {
        1
    } else if m < 0x3FA0_0000 {
        2
    } else if m < 0x3FE0_0000 {
        3
    } else if m < 0x4020_0000 {
        4
    } else if m < 0x4060_0000 {
        5
    } else if m < 0x40A0_0000 {
        6
    } else {
        7
    }
}

/// The scale of a group: its largest absolute value, but at least 1e-8, maps to 6.
pub open spec fn fp4_scale<A: Arith>(group: Seq<F32>) -> F32 {
    let m = max_abs(group, group.len() as int);
    let tiny = F32 { bits: 0x322B_CC77 };
    fdiv::<A>(
        if flt(m, tiny) {
            tiny
        } else {
            m
        },
        F32 { bits: 0x40C0_0000 },
    )
}

/// A number of a group in units of the scale.
pub open spec fn fp4_scaled<A: Arith>(group: Seq<F32>, v: F32) -> F32 {
    fmul::<A>(v, fdiv::<A>(one(), fp4_scale::<A>(group)))
}

/// The code of a number of a group: the nearest one, with the sign in the highest bit.
pub open spec fn fp4_code<A: Arith>(group: Seq<F32>, v: F32) -> int {
    fp4_index(mag(fp4_scaled::<A>(group, v))) + if flt(v, zero()) {
        8int
    } else {
        0int
    }
}

/// The group that number `j` of row `row` belongs to.
pub open spec fn group_at(vals: Seq<F32>, in_dim: int, row: int, j: int) -> Seq<F32> {
    cells(vals, in_dim, row, j / 64 * 64, 64)
}

/// Every number of a whole group of a table of `out_dim` rows of `in_dim` numbers is finite.
pub open spec fn groups_finite(vals: Seq<F32>, out_dim: int, in_dim: int) -> bool {
    forall|row: int, j: int|
        0 <= row < out_dim && 0 <= j < in_dim / 64 * 64 ==> finite(
            #[trigger] vals[row * in_dim + j],
        )
}

/// The `k`-th packed word: eight codes of a row, or nothing behind the last whole group.
pub open spec fn fp4_word<A: Arith>(vals: Seq<F32>, in_dim: int, k: int, word: u32) -> bool {
    let row = k / (in_dim / 8);
    let w = k % (in_dim / 8);
    if w < in_dim / 64 * 8 {
        let group = cells(vals, in_dim, row, w / 8 * 64, 64);
        forall|n: int|
            0 <= n < 8 ==> #[trigger] nibble(word, n) == fp4_code::<A>(
                group,
                group[w % 8 * 8 + n],
            )
    } else {
        word == 0
    }
}

/// Words and scales are the encoding of a table of `out_dim` rows of `in_dim` numbers.
pub open spec fn fp4_encodes<A: Arith>(
    vals: Seq<F32>,
    out_dim: int,
    in_dim: int,
    packed: Seq<u32>,
    scales: Seq<u16>,
) -> bool {
    &&& packed.len() == out_dim * (in_dim / 8)
    &&& scales.len() == out_dim * (in_dim / 64)
    &&& forall|k: int|
        0 <= k < packed.len() ==> fp4_word::<A>(vals, in_dim, k, #[trigger] packed[k])
    &&& forall|k: int|
        0 <= k < scales.len() ==> #[trigger] scales[k] == bf16_of(
            fp4_scale::<A>(int4_group(vals, in_dim, k)),
        )
}

/// Scale and codes of one group.
fn quant_group<A: Arith>(group: &[F32]) -> (r: (F32, Vec<u32>))
    requires
        group@.len() == 64,
    ensures
        r.1@.len() == 64,
        forall|j: int| 0 <= j < 64 ==> #[trigger] r.1@[j] < 16,
        deterministic::<A>() ==> r.0 == fp4_scale::<A>(group@),
        deterministic::<A>() ==> forall|j: int|
            0 <= j < 64 ==> #[trigger] r.1@[j] == fp4_code::<A>(group@, group@[j]),
{
    let largest: F32 = largest_abs(group);
    let tiny: F32 = F32 { bits: 0x322B_CC77 };
    let top: F32 = if largest.less(tiny) {
        tiny
    } else {
        largest
    };
    let scale: F32 = A::div(top, F32 { bits: 0x40C0_0000 });
    let inv: F32 = A::div(one(), scale);
    let mut codes: Vec<u32> = Vec::new();
    for j in 0..64usize
        invariant
            group@.len() == 64,
            codes@.len() == j,
            deterministic::<A>() ==> scale == fp4_scale::<A>(group@),
            deterministic::<A>() ==> inv == fdiv::<A>(one(), scale),
            forall|i: int| 0 <= i < j ==> #[trigger] codes@[i] < 16,
            deterministic::<A>() ==> forall|i: int|
                0 <= i < j ==> #[trigger] codes@[i] == fp4_code::<A>(group@, group@[i]),
    {
        let v: F32 = group[j];
        let scaled: F32 = A::mul(v, inv);
        let code: u32 = nearest_code(scaled.abs());
        assert(mag(fabs(scaled)) == mag(scaled));
        assert(deterministic::<A>() ==> scaled == fp4_scaled::<A>(group@, group@[j as int]));
        if v.less(zero()) {
            codes.push(code + 8);
        } else {
            codes.push(code);
        }
    }
    (scale, codes)
}

/// Quantizes a table of `out_dim` rows of `in_dim` numbers whose whole groups hold finite numbers:
/// packed codes and scales.
#[verifier::loop_isolation(false)]
pub fn quant_f32_to_fp4_e2m1<A: Arith>(f32_vals: &[F32], out_dim: usize, in_dim: usize) -> (r: (
    Vec<u32>,
    Vec<u16>,
))
    requires
        out_dim * in_dim <= usize::MAX,
        rows_fit(
            f32_vals@.len() as int,
            out_dim as int,
            in_dim as int,
            in_dim as int / 64 * 64,
        ),
        groups_finite(f32_vals@, out_dim as int, in_dim as int),
    ensures
        r.0@.len() == out_dim * (in_dim / 8),
        r.1@.len() == out_dim * (in_dim / 64),
        deterministic::<A>() ==> fp4_encodes::<A>(
            f32_vals@,
            out_dim as int,
            in_dim as int,
            r.0@,
            r.1@,
        ),
{
    let num_groups: usize = in_dim / GROUP_SIZE;
    let words_per_row: usize = in_dim / 8;
    let mut packed: Vec<u32> = Vec::new();
    let mut scales: Vec<u16> = Vec::new();
    assert(0 * (in_dim as int / 8) == 0 && 0 * (in_dim as int / 64) == 0);
    assert(f32_vals.len() == f32_vals@.len());
    for row in 0..out_dim
        invariant
            packed@.len() == row * words_per_row,
            scales@.len() == row * num_groups,
            deterministic::<A>() ==> fp4_encodes::<A>(
                f32_vals@,
                row as int,
                in_dim as int,
                packed@,
                scales@,
            ),
    {
        proof {
            lemma_cell(row as int, out_dim as int, in_dim as int);
            lemma_cell(row as int, out_dim as int, words_per_row as int);
            lemma_cell(row as int, out_dim as int, num_groups as int);
        }
        let row_base: usize = row * in_dim;
        for g in 0..num_groups
            invariant
                packed@.len() == row * words_per_row + g * 8,
                scales@.len() == row * num_groups + g,
                deterministic::<A>() ==> forall|k: int|
                    0 <= k < packed@.len() ==> fp4_word::<A>(
                        f32_vals@,
                        in_dim as int,
                        k,
                        #[trigger] packed@[k],
                    ),
                deterministic::<A>() ==> forall|k: int|
                    0 <= k < scales@.len() ==> #[trigger] scales@[k] == bf16_of(
                        fp4_scale::<A>(int4_group(f32_vals@, in_dim as int, k)),
                    ),
        {
            proof {
                lemma_row_fits(
                    f32_vals@.len() as int,
                    row as int,
                    out_dim as int,
                    in_dim as int,
                    in_dim as int / 64 * 64,
                );
                lemma_flat(row as int, g as int, num_groups as int);
            }
            let g_base: usize = row_base + g * GROUP_SIZE;
            let group: &[F32] = slice_subrange(f32_vals, g_base, g_base + GROUP_SIZE);
            assert(group@ == cells(f32_vals@, in_dim as int, row as int, g * 64, 64));
            let (scale, codes) = quant_group::<A>(group);
            scales.push(f32_to_bf16_u16_single(scale));
            let ghost before = packed@;
            push_words(&mut packed, codes.as_slice());
            proof {
                if deterministic::<A>() {
                    assert forall|k: int| 0 <= k < packed@.len() implies fp4_word::<A>(
                        f32_vals@,
                        in_dim as int,
                        k,
                        #[trigger] packed@[k],
                    ) by {
                        if k < before.len() {
                            assert(packed@[k] == before[k]);
                        } else {
                            let p = k - before.len();
                            lemma_flat(row as int, g * 8 + p, words_per_row as int);
                            assert((g * 8 + p) / 8 == g && (g * 8 + p) % 8 == p);
                            assert forall|n: int| 0 <= n < 8 implies #[trigger] nibble(
                                packed@[k],
                                n,
                            ) == codes@[p * 8 + n] by {
                                assert(nibble(packed@[before.len() + p], n) == codes@[p * 8
                                    + n]);
                            }
                        }
                    }
                }
            }
        }
        for w in num_groups * 8..words_per_row
            invariant
                packed@.len() == row * words_per_row + w,
                deterministic::<A>() ==> forall|k: int|
                    0 <= k < packed@.len() ==> fp4_word::<A>(
                        f32_vals@,
                        in_dim as int,
                        k,
                        #[trigger] packed@[k],
                    ),
        {
            proof {
                lemma_flat(row as int, w as int, words_per_row as int);
            }
            packed.push(0);
        }
    }
    (packed, scales)
}

/// The number at flat index `k` of a decoded table: the value of its code times the scale of its
/// group, and zero behind the last whole group of its row.
pub open spec fn fp4_entry<A: Arith>(
    packed: Seq<u32>,
    scales: Seq<u16>,
    in_dim: int,
    k: int,
) -> F32 {
    let row = k / in_dim;
    let j = k % in_dim;
    if j < in_dim / 64 * 64 {
        fmul::<A>(
            fp4_value(nibble(packed[row * (in_dim / 8) + j / 8], j % 8) as int),
            of_bf16(scales[row * (in_dim / 64) + j / 64]),
        )
    } else {
        zero()
    }
}

proof fn lemma_places(row: int, out_dim: int, in_dim: int, j: int)
    requires
        0 <= row < out_dim,
        0 <= j < in_dim / 64 * 64,
    ensures
        0 <= row * (in_dim / 8) <= row * (in_dim / 8) + j / 8 < out_dim * (in_dim / 8),
        0 <= row * (in_dim / 64) <= row * (in_dim / 64) + j / 64 < out_dim * (in_dim / 64),
{
    assert(0 <= j / 8 < in_dim / 8 && 0 <= j / 64 < in_dim / 64);
    lemma_cell(row, out_dim, in_dim / 8);
    lemma_cell(row, out_dim, in_dim / 64);
}

/// One number of a decoded table.
#[verifier::spinoff_prover]
fn read_entry<A: Arith>(
    packed: &[u32],
    scales: &[u16],
    out_dim: usize,
    in_dim: usize,
    row: usize,
    j: usize,
) -> (r: F32)
    requires
        out_dim * (in_dim / 8) <= packed@.len(),
        out_dim * (in_dim / 64) <= scales@.len(),
        row < out_dim,
        j < in_dim,
    ensures
        deterministic::<A>() ==> r == fp4_entry::<A>(
            packed@,
            scales@,
            in_dim as int,
            row * in_dim + j,
        ),
{
    let num_groups: usize = in_dim / GROUP_SIZE;
    let words_per_row: usize = in_dim / 8;
    proof {
        lemma_flat(row as int, j as int, in_dim as int);
    }
    if j < num_groups * GROUP_SIZE {
        proof {
            lemma_places(row as int, out_dim as int, in_dim as int, j as int);
            assert(packed.len() == packed@.len() && scales.len() == scales@.len());
        }
        let word: u32 = packed[row * words_per_row + j / 8];
        let scale: F32 = bf16_to_f32(scales[row * num_groups + j / GROUP_SIZE]);
        let code: u32 = get_nibble(word, (j % 8) as u32);
        A::mul(fp4_e2m1_to_f32(code), scale)
    } else {
        zero()
    }
}

/// Decodes a packed table of `out_dim` rows of `in_dim` numbers.
pub fn fp4_e2m1_to_f32_full<A: Arith>(
    packed: &[u32],
    scales: &[u16],
    out_dim: usize,
    in_dim: usize,
) -> (r: Vec<F32>)
    requires
        out_dim * (in_dim / 8) <= packed@.len(),
        out_dim * (in_dim / 64) <= scales@.len(),
    ensures
        r@.len() == out_dim * in_dim,
        deterministic::<A>() ==> forall|k: int|
            0 <= k < r@.len() ==> #[trigger] r@[k] == fp4_entry::<A>(
                packed@,
                scales@,
                in_dim as int,
                k,
            ),
{
    let mut result: Vec<F32> = Vec::new();
    assert(0 * (in_dim as int) == 0);
    for row in 0..out_dim
        invariant
            out_dim * (in_dim / 8) <= packed@.len(),
            out_dim * (in_dim / 64) <= scales@.len(),
            result@.len() == row * in_dim,
            deterministic::<A>() ==> forall|k: int|
                0 <= k < result@.len() ==> #[trigger] result@[k] == fp4_entry::<A>(
                    packed@,
                    scales@,
                    in_dim as int,
                    k,
                ),
    {
        proof {
            lemma_cell(row as int, out_dim as int, in_dim as int);
        }
        for j in 0..in_dim
            invariant
                out_dim * (in_dim / 8) <= packed@.len(),
                out_dim * (in_dim / 64) <= scales@.len(),
                row < out_dim,
                result@.len() == row * in_dim + j,
                deterministic::<A>() ==> forall|k: int|
                    0 <= k < result@.len() ==> #[trigger] result@[k] == fp4_entry::<A>(
                        packed@,
                        scales@,
                        in_dim as int,
                        k,
                    ),
        {
            result.push(read_entry::<A>(packed, scales, out_dim, in_dim, row, j));
        }
    }
    result
}

/// Encoding the value of a code gives the code back; minus zero loses its sign.
pub proof fn law_fp4_code_round_trip(code: int)
    requires
        0 <= code < 16,
    ensures
        fp4_index(mag(fp4_value(code))) == code % 8,
        flt(fp4_value(code), zero()) == (code > 8),
{
    assert(mag(fp4_value(code)) == fp4_bits(code % 8));
}

/// The code of a number of a whole group lies in the word of its eight.
pub proof fn law_fp4_nibble<A: Arith>(
    vals: Seq<F32>,
    out_dim: int,
    in_dim: int,
    packed: Seq<u32>,
    scales: Seq<u16>,
    row: int,
    j: int,
)
    requires
        0 <= row < out_dim,
        0 <= j < in_dim / 64 * 64,
        rows_fit(vals.len() as int, out_dim, in_dim, in_dim / 64 * 64),
        fp4_encodes::<A>(vals, out_dim, in_dim, packed, scales),
    ensures
        nibble(packed[row * (in_dim / 8) + j / 8], j % 8) == fp4_code::<A>(
            group_at(vals, in_dim, row, j),
            vals[row * in_dim + j],
        ),
        group_at(vals, in_dim, row, j).len() == 64,
        group_at(vals, in_dim, row, j)[j % 64] == vals[row * in_dim + j],
{
    let (g, t, w) = (j / 64, j % 64, j / 8);
    let wpr = in_dim / 8;
    lemma_row_fits(vals.len() as int, row, out_dim, in_dim, in_dim / 64 * 64);
    lemma_flat(row, w, wpr);
    lemma_cell(row, out_dim, wpr);
    assert(w / 8 == g && w % 8 == t / 8);
    let group = cells(vals, in_dim, row, g * 64, 64);
    let word = packed[row * wpr + w];
    assert(fp4_word::<A>(vals, in_dim, row * wpr + w, word));
    assert(nibble(word, t % 8) == fp4_code::<A>(group, group[w % 8 * 8 + t % 8]));
}

/// What a read gives back of a write: a number of a whole group comes back as the value of its
/// code times the stored scale, and a number behind the last whole group as zero.
pub proof fn law_fp4_round_trip<A: Arith>(
    vals: Seq<F32>,
    out_dim: int,
    in_dim: int,
    packed: Seq<u32>,
    scales: Seq<u16>,
    row: int,
    j: int,
)
    requires
        0 <= row < out_dim,
        0 <= j < in_dim,
        rows_fit(vals.len() as int, out_dim, in_dim, in_dim / 64 * 64),
        fp4_encodes::<A>(vals, out_dim, in_dim, packed, scales),
    ensures
        fp4_entry::<A>(packed, scales, in_dim, row * in_dim + j) == if j < in_dim / 64 * 64 {
            let group = group_at(vals, in_dim, row, j);
            fmul::<A>(
                fp4_value(fp4_code::<A>(group, vals[row * in_dim + j])),
                of_bf16(bf16_of(fp4_scale::<A>(group))),
            )
        } else {
            zero()
        },
{
    let (g, groups) = (j / 64, in_dim / 64);
    lemma_flat(row, j, in_dim);
    if g < groups {
        law_fp4_nibble::<A>(vals, out_dim, in_dim, packed, scales, row, j);
        lemma_flat(row, g, groups);
        lemma_cell(row, out_dim, groups);
        let group = cells(vals, in_dim, row, g * 64, 64);
        assert(int4_group(vals, in_dim, row * groups + g) == group);
    }
}

} // verus!
