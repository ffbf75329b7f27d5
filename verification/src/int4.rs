//! Affine four-bit quantization: groups of 64 weights share a scale and a bias.

use crate::bf16::{bf16_of, bf16_to_f32, f32_to_bf16_u16_single, of_bf16};
use crate::float::{
    Arith, F32, deterministic, fadd, fdiv, feq, ffrom_int, flt, fmax, fmin, fmul, fsub, fto_i32,
    half, nan, one, zero,
};
use crate::grid::{cells, lemma_cell, lemma_flat, lemma_row_fits, rows_fit};
use crate::nibble::{get_nibble, nibble, push_words};
use vstd::prelude::*;
use vstd::slice::slice_subrange;

verus! {

/// Weights that share one scale and one bias.
pub const GROUP_SIZE: usize = 64;

/// The smallest of the first `n` numbers.
pub open spec fn least(s: Seq<F32>, n: int) -> F32
    decreases n,
{
    if n <= 1 {
        s[0]
    } else {
        fmin(least(s, n - 1), s[n - 1])
    }
}

/// The largest of the first `n` numbers.
pub open spec fn greatest(s: Seq<F32>, n: int) -> F32
    decreases n,
{
    if n <= 1 {
        s[0]
    } else {
        fmax(greatest(s, n - 1), s[n - 1])
    }
}

/// `15.0`, the number of steps of a scale.
pub open spec fn fifteen() -> F32 {
    F32 { bits: 0x4170_0000 }
}

/// The step between neighbouring codes of a group: a fifteenth of the range of its numbers, or of
/// one where all are equal.
pub open spec fn int4_scale<A: Arith>(group: Seq<F32>) -> F32 {
    let lo = least(group, group.len() as int);
    let hi = greatest(group, group.len() as int);
    let top = if feq(hi, lo) {
        fadd::<A>(lo, one())
    } else {
        hi
    };
    fdiv::<A>(fsub::<A>(top, lo), fifteen())
}

/// An integer held between 0 and 15.
pub open spec fn clamp15(q: int) -> u32 {
    (if q < 0 {
        0
    } else if q > 15 {
        15
    } else {
        q
    }) as u32
}

/// The code of a number of a group: its distance from the smallest number in steps, rounded and
/// held between 0 and 15.
pub open spec fn int4_code<A: Arith>(group: Seq<F32>, v: F32) -> u32 {
    let lo = least(group, group.len() as int);
    let inv = fdiv::<A>(one(), int4_scale::<A>(group));
    clamp15(fto_i32::<A>(fadd::<A>(fmul::<A>(fsub::<A>(v, lo), inv), half())) as int)
}

/// The `k`-th packed word: eight codes of a row, or nothing behind the last whole group.
pub open spec fn int4_word<A: Arith>(vals: Seq<F32>, in_dim: int, k: int, word: u32) -> bool {
    let row = k / (in_dim / 8);
    let w = k % (in_dim / 8);
    if w < in_dim / 64 * 8 {
        let group = cells(vals, in_dim, row, w / 8 * 64, 64);
        forall|n: int|
            0 <= n < 8 ==> #[trigger] nibble(word, n) == int4_code::<A>(
                group,
                group[w % 8 * 8 + n],
            )
    } else {
        word == 0
    }
}

/// The group that the `k`-th scale and bias belong to.
pub open spec fn int4_group(vals: Seq<F32>, in_dim: int, k: int) -> Seq<F32> {
    cells(vals, in_dim, k / (in_dim / 64), k % (in_dim / 64) * 64, 64)
}

/// Words, scales and biases are the encoding of a table of `out_dim` rows of `in_dim` numbers.
pub open spec fn int4_encodes<A: Arith>(
    vals: Seq<F32>,
    out_dim: int,
    in_dim: int,
    packed: Seq<u32>,
    scales: Seq<u16>,
    biases: Seq<u16>,
) -> bool {
    &&& packed.len() == out_dim * (in_dim / 8)
    &&& scales.len() == out_dim * (in_dim / 64)
    &&& biases.len() == out_dim * (in_dim / 64)
    &&& forall|k: int|
        0 <= k < packed.len() ==> int4_word::<A>(vals, in_dim, k, #[trigger] packed[k])
    &&& forall|k: int|
        0 <= k < scales.len() ==> #[trigger] scales[k] == bf16_of(
            int4_scale::<A>(int4_group(vals, in_dim, k)),
        )
    &&& forall|k: int|
        0 <= k < biases.len() ==> #[trigger] biases[k] == bf16_of(
            least(int4_group(vals, in_dim, k), 64),
        )
}

/// Scale, bias and the 64 codes of one group.
fn quant_group<A: Arith>(group: &[F32]) -> (r: (F32, F32, Vec<u32>))
    requires
        group@.len() == 64,
    ensures
        r.1 == least(group@, 64),
        r.2@.len() == 64,
        forall|j: int| 0 <= j < 64 ==> #[trigger] r.2@[j] < 16,
        deterministic::<A>() ==> r.0 == int4_scale::<A>(group@),
        deterministic::<A>() ==> forall|j: int|
            0 <= j < 64 ==> #[trigger] r.2@[j] == int4_code::<A>(group@, group@[j]),
{
    let mut lo: F32 = group[0];
    let mut hi: F32 = group[0];
    for i in 1..64usize
        invariant
            group@.len() == 64,
            lo == least(group@, i as int),
            hi == greatest(group@, i as int),
    {
        lo = lo.min(group[i]);
        hi = hi.max(group[i]);
    }
    if hi.same(lo) {
        hi = A::add(lo, one());
    }
    let scale: F32 = A::div(A::sub(hi, lo), F32 { bits: 0x4170_0000 });
    let inv: F32 = A::div(one(), scale);
    let mut codes: Vec<u32> = Vec::new();
    for j in 0..64usize
        invariant
            group@.len() == 64,
            codes@.len() == j,
            lo == least(group@, 64),
            deterministic::<A>() ==> scale == int4_scale::<A>(group@),
            deterministic::<A>() ==> inv == fdiv::<A>(one(), scale),
            forall|i: int| 0 <= i < j ==> #[trigger] codes@[i] < 16,
            deterministic::<A>() ==> forall|i: int|
                0 <= i < j ==> #[trigger] codes@[i] == int4_code::<A>(group@, group@[i]),
    {
        let q: i32 = A::to_i32(A::add(A::mul(A::sub(group[j], lo), inv), half()));
        let code: u32 = if q < 0 {
            0
        } else if q > 15 {
            15
        } else {
            q as u32
        };
        codes.push(code);
    }
    (scale, lo, codes)
}

/// Quantizes a table of `out_dim` rows of `in_dim` numbers: packed codes, scales and biases.
///
/// Numbers behind the last whole group of a row are not encoded; their words are zero.
pub fn quant_f32_to_int4<A: Arith>(f32_vals: &[F32], out_dim: usize, in_dim: usize) -> (r: (
    Vec<u32>,
    Vec<u16>,
    Vec<u16>,
))
    requires
        out_dim * in_dim <= usize::MAX,
        rows_fit(
            f32_vals@.len() as int,
            out_dim as int,
            in_dim as int,
            in_dim as int / 64 * 64,
        ),
    ensures
        r.0@.len() == out_dim * (in_dim / 8),
        r.1@.len() == out_dim * (in_dim / 64),
        r.2@.len() == out_dim * (in_dim / 64),
        deterministic::<A>() ==> int4_encodes::<A>(
            f32_vals@,
            out_dim as int,
            in_dim as int,
            r.0@,
            r.1@,
            r.2@,
        ),
        forall|k: int|
            0 <= k < r.2@.len() ==> #[trigger] r.2@[k] == bf16_of(
                least(int4_group(f32_vals@, in_dim as int, k), 64),
            ),
{
    let num_groups: usize = in_dim / GROUP_SIZE;
    let words_per_row: usize = in_dim / 8;
    let mut packed: Vec<u32> = Vec::new();
    let mut scales: Vec<u16> = Vec::new();
    let mut biases: Vec<u16> = Vec::new();
    assert(0 * (in_dim as int / 8) == 0 && 0 * (in_dim as int / 64) == 0);
    for row in 0..out_dim
        invariant
            num_groups == in_dim / 64,
            words_per_row == in_dim / 8,
            out_dim * in_dim <= usize::MAX,
            rows_fit(
                f32_vals@.len() as int,
                out_dim as int,
                in_dim as int,
                in_dim as int / 64 * 64,
            ),
            packed@.len() == row * words_per_row,
            scales@.len() == row * num_groups,
            biases@.len() == row * num_groups,
            deterministic::<A>() ==> forall|k: int|
                0 <= k < packed@.len() ==> int4_word::<A>(
                    f32_vals@,
                    in_dim as int,
                    k,
                    #[trigger] packed@[k],
                ),
            deterministic::<A>() ==> forall|k: int|
                0 <= k < scales@.len() ==> #[trigger] scales@[k] == bf16_of(
                    int4_scale::<A>(int4_group(f32_vals@, in_dim as int, k)),
                ),
            forall|k: int|
                0 <= k < biases@.len() ==> #[trigger] biases@[k] == bf16_of(
                    least(int4_group(f32_vals@, in_dim as int, k), 64),
                ),
    {
        proof {
            lemma_cell(row as int, out_dim as int, in_dim as int);
            lemma_cell(row as int, out_dim as int, words_per_row as int);
            lemma_cell(row as int, out_dim as int, num_groups as int);
        }
        let row_base: usize = row * in_dim;
        for g in 0..num_groups
            invariant
                row < out_dim,
                row_base == row * in_dim,
                num_groups == in_dim / 64,
                words_per_row == in_dim / 8,
                out_dim * in_dim <= usize::MAX,
                rows_fit(
                    f32_vals@.len() as int,
                    out_dim as int,
                    in_dim as int,
                    in_dim as int / 64 * 64,
                ),
                packed@.len() == row * words_per_row + g * 8,
                scales@.len() == row * num_groups + g,
                biases@.len() == row * num_groups + g,
                deterministic::<A>() ==> forall|k: int|
                    0 <= k < packed@.len() ==> int4_word::<A>(
                        f32_vals@,
                        in_dim as int,
                        k,
                        #[trigger] packed@[k],
                    ),
                deterministic::<A>() ==> forall|k: int|
                    0 <= k < scales@.len() ==> #[trigger] scales@[k] == bf16_of(
                        int4_scale::<A>(int4_group(f32_vals@, in_dim as int, k)),
                    ),
                forall|k: int|
                    0 <= k < biases@.len() ==> #[trigger] biases@[k] == bf16_of(
                        least(int4_group(f32_vals@, in_dim as int, k), 64),
                    ),
        {
            proof {
                lemma_row_fits(
                    f32_vals@.len() as int,
                    row as int,
                    out_dim as int,
                    in_dim as int,
                    in_dim as int / 64 * 64,
                );
                lemma_flat(row as int, g as int, num_groups as int);
                assert(f32_vals.len() == f32_vals@.len());
            }
            let g_base: usize = row_base + g * GROUP_SIZE;
            let group: &[F32] = slice_subrange(f32_vals, g_base, g_base + GROUP_SIZE);
            let (scale, bias, codes) = quant_group::<A>(group);
            scales.push(f32_to_bf16_u16_single(scale));
            biases.push(f32_to_bf16_u16_single(bias));
            let ghost before = packed@;
            push_words(&mut packed, codes.as_slice());
            proof {
                if deterministic::<A>() {
                    assert forall|k: int| 0 <= k < packed@.len() implies int4_word::<A>(
                        f32_vals@,
                        in_dim as int,
                        k,
                        #[trigger] packed@[k],
                    ) by {
                        if k < before.len() {
                            assert(packed@[k] == before[k]);
                        } else {
                            let p = k - before.len();
                            lemma_flat(row as int, g * 8 + p, words_per_row as int);
                            assert((g * 8 + p) / 8 == g && (g * 8 + p) % 8 == p);
                            assert(group@ == cells(f32_vals@, in_dim as int, row as int, g * 64, 64));
                            assert forall|n: int| 0 <= n < 8 implies #[trigger] nibble(packed@[k], n)
                                == codes@[p * 8 + n] by {
                                assert(nibble(packed@[before.len() + p], n) == codes@[p * 8 + n]);
                            }
                        }
                    }
                }
            }
        }
        for w in num_groups * 8..words_per_row
            invariant
                num_groups == in_dim / 64,
                words_per_row == in_dim / 8,
                packed@.len() == row * words_per_row + w,
                deterministic::<A>() ==> forall|k: int|
                    0 <= k < packed@.len() ==> int4_word::<A>(
                        f32_vals@,
                        in_dim as int,
                        k,
                        #[trigger] packed@[k],
                    ),
        {
            proof {
                lemma_flat(row as int, w as int, words_per_row as int);
            }
            packed.push(0);
        }
    }
    (packed, scales, biases)
}

/// The number that a code of a group stands for: `code * scale + bias`.
pub open spec fn int4_value<A: Arith>(code: u32, scale: u16, bias: u16) -> F32 {
    fadd::<A>(fmul::<A>(ffrom_int::<A>(code as i64), of_bf16(scale)), of_bf16(bias))
}

/// The `j`-th number of a row of `num_groups` groups of `group_size`: zero where no word of the
/// row holds a code for it.
pub open spec fn dequant_entry<A: Arith>(
    w: Seq<u32>,
    s: Seq<u16>,
    b: Seq<u16>,
    num_groups: int,
    group_size: int,
    j: int,
) -> F32 {
    let g = j / group_size;
    let t = j % group_size;
    if group_size > 0 && g < num_groups && t < group_size / 8 * 8 {
        int4_value::<A>(nibble(w[g * (group_size / 8) + t / 8], t % 8), s[g], b[g])
    } else {
        zero()
    }
}

/// A row of `len` numbers from its words, scales and biases.
pub open spec fn dequant_seq<A: Arith>(
    w: Seq<u32>,
    s: Seq<u16>,
    b: Seq<u16>,
    num_groups: int,
    group_size: int,
    len: nat,
) -> Seq<F32> {
    Seq::new(len, |j: int| dequant_entry::<A>(w, s, b, num_groups, group_size, j))
}

/// The words, scales and biases cover `num_groups` groups of `group_size`, and these fit in `len`
/// numbers.
pub open spec fn groups_fit(
    w: int,
    s: int,
    b: int,
    num_groups: int,
    group_size: int,
    len: int,
) -> bool {
    &&& num_groups * (group_size / 8) <= w
    &&& num_groups <= s
    &&& num_groups <= b
    &&& rows_fit(len, num_groups, group_size, group_size / 8 * 8)
}

/// Decodes one row of packed weights.
pub fn dequant_groups<A: Arith>(
    w: &[u32],
    s: &[u16],
    b: &[u16],
    num_groups: usize,
    group_size: usize,
    len: usize,
) -> (r: Vec<F32>)
    requires
        groups_fit(
            w@.len() as int,
            s@.len() as int,
            b@.len() as int,
            num_groups as int,
            group_size as int,
            len as int,
        ),
    ensures
        r@.len() == len,
        deterministic::<A>() ==> r@ == dequant_seq::<A>(
            w@,
            s@,
            b@,
            num_groups as int,
            group_size as int,
            len as nat,
        ),
{
    let mut out: Vec<F32> = Vec::with_capacity(len);
    for j in 0..len
        invariant
            groups_fit(
                w@.len() as int,
                s@.len() as int,
                b@.len() as int,
                num_groups as int,
                group_size as int,
                len as int,
            ),
            out@.len() == j,
            deterministic::<A>() ==> forall|i: int|
                0 <= i < j ==> #[trigger] out@[i] == dequant_entry::<A>(
                    w@,
                    s@,
                    b@,
                    num_groups as int,
                    group_size as int,
                    i,
                ),
    {
        let mut value: F32 = zero();
        if group_size > 0 {
            let g: usize = j / group_size;
            let t: usize = j % group_size;
            let words: usize = group_size / 8;
            if g < num_groups && t < words * 8 {
                proof {
                    lemma_cell(g as int, num_groups as int, words as int);
                    assert(w.len() == w@.len());
                }
                let code: u32 = get_nibble(w[g * words + t / 8], (t % 8) as u32);
                let scaled: F32 = A::mul(A::from_int(code as i64), bf16_to_f32(s[g]));
                value = A::add(scaled, bf16_to_f32(b[g]));
            }
        }
        out.push(value);
    }
    proof {
        if deterministic::<A>() {
            assert(out@ =~= dequant_seq::<A>(
                w@,
                s@,
                b@,
                num_groups as int,
                group_size as int,
                len as nat,
            ));
        }
    }
    out
}

/// Row `row` of a table with `in_dim` columns.
pub open spec fn int4_row<A: Arith>(
    packed: Seq<u32>,
    scales: Seq<u16>,
    biases: Seq<u16>,
    in_dim: int,
    group_size: int,
    row: int,
) -> Seq<F32> {
    let groups = in_dim / group_size;
    dequant_seq::<A>(
        packed.skip(row * (in_dim / 8)),
        scales.skip(row * groups),
        biases.skip(row * groups),
        groups,
        group_size,
        in_dim as nat,
    )
}

/// What decoding a table of `rows` rows needs of its parts.
pub open spec fn table_fits(
    packed: int,
    scales: int,
    biases: int,
    rows: int,
    in_dim: int,
    group_size: int,
) -> bool {
    &&& group_size > 0
    &&& rows_fit(packed, rows, in_dim / 8, in_dim / group_size * (group_size / 8))
    &&& rows * (in_dim / group_size) <= scales
    &&& rows * (in_dim / group_size) <= biases
}

/// Decodes row `row` of a packed table.
pub fn dequant_row<A: Arith>(
    w_packed: &[u32],
    scales: &[u16],
    biases: &[u16],
    in_dim: usize,
    group_size: usize,
    row: usize,
) -> (r: Vec<F32>)
    requires
        row < usize::MAX,
        table_fits(
            w_packed@.len() as int,
            scales@.len() as int,
            biases@.len() as int,
            row + 1,
            in_dim as int,
            group_size as int,
        ),
    ensures
        r@.len() == in_dim,
        deterministic::<A>() ==> r@ == int4_row::<A>(
            w_packed@,
            scales@,
            biases@,
            in_dim as int,
            group_size as int,
            row as int,
        ),
{
    let num_groups: usize = in_dim / group_size;
    let packed_cols: usize = in_dim / 8;
    let words: usize = group_size / 8;
    proof {
        lemma_dequant_row(in_dim as int, group_size as int);
        lemma_cell(row as int, row + 1, num_groups as int);
        lemma_cell(row as int, row + 1, packed_cols as int);
        assert(scales.len() == scales@.len() && w_packed.len() == w_packed@.len());
        assert(num_groups * words >= 0) by (nonlinear_arith);
    }
    if num_groups == 0 || words == 0 {
        let none: Vec<u32> = Vec::new();
        assert(num_groups * (group_size / 8) == 0) by (nonlinear_arith)
            requires
                num_groups == 0 || group_size / 8 == 0,
        ;
        let s: &[u16] = slice_subrange(scales, row * num_groups, scales.len());
        let b: &[u16] = slice_subrange(biases, row * num_groups, biases.len());
        let out: Vec<F32> = dequant_groups::<A>(
            none.as_slice(),
            s,
            b,
            num_groups,
            group_size,
            in_dim,
        );
        proof {
            if deterministic::<A>() {
                assert(out@ =~= int4_row::<A>(
                    w_packed@,
                    scales@,
                    biases@,
                    in_dim as int,
                    group_size as int,
                    row as int,
                ));
            }
        }
        return out;
    }
    assert(num_groups * words > 0) by (nonlinear_arith)
        requires
            num_groups > 0,
            words > 0,
    ;
    let w: &[u32] = slice_subrange(w_packed, row * packed_cols, w_packed.len());
    let s: &[u16] = slice_subrange(scales, row * num_groups, scales.len());
    let b: &[u16] = slice_subrange(biases, row * num_groups, biases.len());
    dequant_groups::<A>(w, s, b, num_groups, group_size, in_dim)
}

proof fn lemma_dequant_row(in_dim: int, group_size: int)
    requires
        in_dim >= 0,
        group_size > 0,
    ensures
        in_dim / group_size * group_size <= in_dim,
        rows_fit(in_dim, in_dim / group_size, group_size, group_size / 8 * 8),
{
    let g = in_dim / group_size;
    vstd::arithmetic::div_mod::lemma_fundamental_div_mod(in_dim, group_size);
    assert(g * group_size <= in_dim && (g - 1) * group_size + group_size == g * group_size)
        by (nonlinear_arith)
        requires
            in_dim == group_size * g + in_dim % group_size,
            in_dim % group_size >= 0,
    ;
}

/// A table of `rows` rows, row after row.
pub open spec fn int4_table<A: Arith>(
    packed: Seq<u32>,
    scales: Seq<u16>,
    biases: Seq<u16>,
    rows: int,
    in_dim: int,
    group_size: int,
) -> Seq<F32>
    decreases rows,
{
    if rows <= 0 {
        Seq::empty()
    } else {
        int4_table::<A>(packed, scales, biases, rows - 1, in_dim, group_size) + int4_row::<A>(
            packed,
            scales,
            biases,
            in_dim,
            group_size,
            rows - 1,
        )
    }
}

/// A decoded table holds the numbers of its rows, row after row.
pub proof fn law_int4_table<A: Arith>(
    packed: Seq<u32>,
    scales: Seq<u16>,
    biases: Seq<u16>,
    rows: int,
    in_dim: int,
    group_size: int,
    row: int,
    j: int,
)
    requires
        0 <= row < rows,
        0 <= j < in_dim,
    ensures
        int4_table::<A>(packed, scales, biases, rows, in_dim, group_size).len() == rows * in_dim,
        int4_table::<A>(packed, scales, biases, rows, in_dim, group_size)[row * in_dim + j]
            == int4_row::<A>(packed, scales, biases, in_dim, group_size, row)[j],
    decreases rows,
{
    let before = int4_table::<A>(packed, scales, biases, rows - 1, in_dim, group_size);
    lemma_cell(rows - 1, rows, in_dim);
    if rows == 1 {
        assert(before.len() == 0);
        assert((rows - 1) * in_dim == 0);
        assert(row * in_dim == 0);
    } else if row == rows - 1 {
        law_int4_table::<A>(packed, scales, biases, rows - 1, in_dim, group_size, 0, j);
    } else {
        law_int4_table::<A>(packed, scales, biases, rows - 1, in_dim, group_size, row, j);
        lemma_cell(row, rows - 1, in_dim);
    }
}

/// Decodes a whole packed table, row after row.
pub fn dequant_matrix<A: Arith>(
    w_packed: &[u32],
    scales: &[u16],
    biases: &[u16],
    out_dim: usize,
    in_dim: usize,
    group_size: usize,
) -> (r: Vec<F32>)
    requires
        table_fits(
            w_packed@.len() as int,
            scales@.len() as int,
            biases@.len() as int,
            out_dim as int,
            in_dim as int,
            group_size as int,
        ),
    ensures
        r@.len() == out_dim * in_dim,
        deterministic::<A>() ==> r@ == int4_table::<A>(
            w_packed@,
            scales@,
            biases@,
            out_dim as int,
            in_dim as int,
            group_size as int,
        ),
{
    let mut out: Vec<F32> = Vec::new();
    assert(0 * (in_dim as int) == 0);
    for row in 0..out_dim
        invariant
            table_fits(
                w_packed@.len() as int,
                scales@.len() as int,
                biases@.len() as int,
                out_dim as int,
                in_dim as int,
                group_size as int,
            ),
            out@.len() == row * in_dim,
            deterministic::<A>() ==> out@ == int4_table::<A>(
                w_packed@,
                scales@,
                biases@,
                row as int,
                in_dim as int,
                group_size as int,
            ),
    {
        proof {
            lemma_table_prefix(
                w_packed@.len() as int,
                scales@.len() as int,
                biases@.len() as int,
                row as int,
                out_dim as int,
                in_dim as int,
                group_size as int,
            );
            lemma_cell(row as int, out_dim as int, in_dim as int);
        }
        let mut part: Vec<F32> = dequant_row::<A>(
            w_packed,
            scales,
            biases,
            in_dim,
            group_size,
            row,
        );
        out.append(&mut part);
    }
    out
}

proof fn lemma_table_prefix(
    packed: int,
    scales: int,
    biases: int,
    row: int,
    rows: int,
    in_dim: int,
    group_size: int,
)
    requires
        table_fits(packed, scales, biases, rows, in_dim, group_size),
        0 <= row < rows,
        0 <= in_dim,
    ensures
        table_fits(packed, scales, biases, row + 1, in_dim, group_size),
{
    let groups = in_dim / group_size;
    let used = groups * (group_size / 8);
    vstd::arithmetic::div_mod::lemma_div_pos_is_pos(in_dim, group_size);
    lemma_cell(row, rows, groups);
    assert(used >= 0) by (nonlinear_arith)
        requires
            used == groups * (group_size / 8),
            groups >= 0,
            group_size > 0,
    ;
    if used > 0 {
        assert(row * (in_dim / 8) <= (rows - 1) * (in_dim / 8)) by (nonlinear_arith)
            requires
                row <= rows - 1,
                in_dim / 8 >= 0,
        ;
    }
}

/// Decodes a table of `out_dim` rows of `in_dim` numbers that was encoded in groups of 64.
pub fn int4_to_f32<A: Arith>(
    packed: &[u32],
    scales: &[u16],
    biases: &[u16],
    out_dim: usize,
    in_dim: usize,
) -> (r: Vec<F32>)
    requires
        table_fits(
            packed@.len() as int,
            scales@.len() as int,
            biases@.len() as int,
            out_dim as int,
            in_dim as int,
            64,
        ),
    ensures
        r@.len() == out_dim * in_dim,
        deterministic::<A>() ==> r@ == int4_table::<A>(
            packed@,
            scales@,
            biases@,
            out_dim as int,
            in_dim as int,
            64,
        ),
{
    dequant_matrix::<A>(packed, scales, biases, out_dim, in_dim, GROUP_SIZE)
}

/// What a read gives back of a write: a number of a whole group comes back as its code times the
/// stored scale plus the stored bias, and a number behind the last whole group as zero.
pub proof fn law_int4_round_trip<A: Arith>(
    vals: Seq<F32>,
    out_dim: int,
    in_dim: int,
    packed: Seq<u32>,
    scales: Seq<u16>,
    biases: Seq<u16>,
    row: int,
    j: int,
)
    requires
        0 <= row < out_dim,
        0 <= j < in_dim,
        rows_fit(vals.len() as int, out_dim, in_dim, in_dim / 64 * 64),
        int4_encodes::<A>(vals, out_dim, in_dim, packed, scales, biases),
    ensures
        int4_row::<A>(packed, scales, biases, in_dim, 64, row)[j] == if j < in_dim / 64 * 64 {
            let group = cells(vals, in_dim, row, j / 64 * 64, 64);
            int4_value::<A>(
                int4_code::<A>(group, vals[row * in_dim + j]),
                bf16_of(int4_scale::<A>(group)),
                bf16_of(least(group, 64)),
            )
        } else {
            zero()
        },
{
    let (g, t) = (j / 64, j % 64);
    let (wpr, groups) = (in_dim / 8, in_dim / 64);
    if g < groups {
        lemma_row_fits(vals.len() as int, row, out_dim, in_dim, in_dim / 64 * 64);
        let w = g * 8 + t / 8;
        lemma_flat(row, w, wpr);
        lemma_flat(row, g, groups);
        lemma_cell(row, out_dim, wpr);
        lemma_cell(row, out_dim, groups);
        assert(w / 8 == g && w % 8 == t / 8);
        let group = cells(vals, in_dim, row, g * 64, 64);
        let word = packed[row * wpr + w];
        assert(int4_word::<A>(vals, in_dim, row * wpr + w, word));
        assert(nibble(word, t % 8) == int4_code::<A>(group, group[w % 8 * 8 + t % 8]));
        assert(group[w % 8 * 8 + t % 8] == vals[row * in_dim + j]);
        assert(int4_group(vals, in_dim, row * groups + g) == group);
    }
}

/// The smallest and the largest of numbers: each is one of them, and none is smaller or larger.
pub proof fn law_least_greatest(s: Seq<F32>, n: int) -> (p: (int, int))
    requires
        0 < n <= s.len(),
        forall|i: int| 0 <= i < n ==> !nan(#[trigger] s[i]),
    ensures
        0 <= p.0 < n,
        0 <= p.1 < n,
        least(s, n) == s[p.0],
        greatest(s, n) == s[p.1],
        forall|i: int| 0 <= i < n ==> !flt(#[trigger] s[i], least(s, n)),
        forall|i: int| 0 <= i < n ==> !flt(greatest(s, n), #[trigger] s[i]),
    decreases n,
{
    if n == 1 {
        (0, 0)
    } else {
        let (a, b) = law_least_greatest(s, n - 1);
        assert(!nan(s[n - 1]) && !nan(s[a]) && !nan(s[b]));
        (
            if flt(s[n - 1], s[a]) {
                n - 1
            } else {
                a
            },
            if flt(s[b], s[n - 1]) {
                n - 1
            } else {
                b
            },
        )
    }
}

/// The step and the codes of a group, whose smallest number is `s[p]` and whose largest is `s[q]`:
/// the step is a fifteenth of the range, or of one where there is no range, and a code counts the
/// steps from the smallest number, rounded, from zero to fifteen.
pub proof fn law_int4_steps<A: Arith>(s: Seq<F32>, v: F32, p: int, q: int)
    requires
        0 <= p < s.len(),
        0 <= q < s.len(),
        least(s, s.len() as int) == s[p],
        greatest(s, s.len() as int) == s[q],
    ensures
        ({
            let top = if feq(s[q], s[p]) {
                fadd::<A>(s[p], one())
            } else {
                s[q]
            };
            let step = fdiv::<A>(fsub::<A>(top, s[p]), (F32 { bits: 0x4170_0000 }));
            let steps = fto_i32::<A>(
                fadd::<A>(
                    fmul::<A>(fsub::<A>(v, s[p]), fdiv::<A>(one(), step)),
                    (F32 { bits: 0x3F00_0000 }),
                ),
            );
            &&& int4_scale::<A>(s) == step
            &&& 0 <= steps <= 15 ==> int4_code::<A>(s, v) == steps
            &&& steps < 0 ==> int4_code::<A>(s, v) == 0
            &&& steps > 15 ==> int4_code::<A>(s, v) == 15
        }),
{
}

} // verus!
