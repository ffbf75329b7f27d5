//! Where packed tables keep their codes and scales.

use crate::bf16::{bf16_of, of_bf16};
use crate::bytes::{
    bits_of, bytes16, bytes32, bytes8, law_bytes16_round_trip, law_bytes32_round_trip,
    law_signed_bytes, u16_at, u32_at,
};
use crate::dtype::{
    DType, EncodedTensor, bf16_tensors, fp32_tensors, fp4_tensors, fp8_tensors, int4_tensors,
    int8_tensors, is_tensor,
};
use crate::float::{Arith, F32, fadd, ffrom_int, fmul, zero};
use crate::fp4::{fp4_code, fp4_encodes, fp4_entry, fp4_scale, fp4_value, law_fp4_nibble};
use crate::fp8::{fp8_byte, fp8_encodes, fp8_entry, fp8_group, fp8_group_code, fp8_scale, fp8_value};
use crate::grid::{lemma_cell, lemma_flat, lemma_row_fits, rows_fit};
use crate::int4::{
    int4_code, int4_encodes, int4_group, int4_row, int4_scale, int4_table, int4_word,
    law_int4_table, least,
};
use crate::int8::{int8_code, int8_encodes, int8_entry, int8_scale, table_row};
use crate::nibble::nibble;
use vstd::prelude::*;

verus! {

/// A table of four-bit integers as it is written: eight codes of a row to a word, the first lowest,
/// and one scale and one bias for every sixty-four numbers of a row, in the order of rows and then
/// of columns.
pub proof fn law_int4_written<A: Arith>(
    vals: Seq<F32>,
    rows: int,
    cols: int,
    packed: Seq<u32>,
    scales: Seq<u16>,
    biases: Seq<u16>,
    r: int,
    c: int,
)
    requires
        0 <= r < rows,
        0 <= c < cols / 64 * 64,
        rows_fit(vals.len() as int, rows, cols, cols / 64 * 64),
        int4_encodes::<A>(vals, rows, cols, packed, scales, biases),
    ensures
        ({
            let start = r * cols + c / 64 * 64;
            let group = vals.subrange(start, start + 64);
            let word = packed[r * (cols / 8) + c / 8];
            let g = r * (cols / 64) + c / 64;
            &&& (word >> ((4 * (c % 8)) as u32)) & 0xF == int4_code::<A>(
                group,
                vals[r * cols + c],
            )
            &&& scales[g] == bf16_of(int4_scale::<A>(group))
            &&& biases[g] == bf16_of(least(group, 64))
            &&& packed.len() == rows * (cols / 8)
            &&& scales.len() == rows * (cols / 64)
            &&& biases.len() == rows * (cols / 64)
        }),
{
    let (wpr, groups) = (cols / 8, cols / 64);
    let (g, t, w) = (c / 64, c % 64, c / 8);
    lemma_row_fits(vals.len() as int, r, rows, cols, cols / 64 * 64);
    lemma_flat(r, w, wpr);
    lemma_flat(r, g, groups);
    lemma_cell(r, rows, wpr);
    lemma_cell(r, rows, groups);
    assert(w / 8 == g && w % 8 == t / 8);
    let start = r * cols + g * 64;
    let group = vals.subrange(start, start + 64);
    let word = packed[r * wpr + w];
    assert(int4_word::<A>(vals, cols, r * wpr + w, word));
    assert(nibble(word, t % 8) == int4_code::<A>(group, group[w % 8 * 8 + t % 8]));
    assert(group[w % 8 * 8 + t % 8] == vals[r * cols + c]);
    assert(int4_group(vals, cols, r * groups + g) == group);
    assert(scales[r * groups + g] == bf16_of(
        int4_scale::<A>(int4_group(vals, cols, r * groups + g)),
    ));
    assert(biases[r * groups + g] == bf16_of(least(int4_group(vals, cols, r * groups + g), 64)));
}

/// A table of four-bit integers as it is read, for any size of group that eight divides: each
/// number from its own four bits, with the scale and the bias of its group.
pub proof fn law_int4_read<A: Arith>(
    packed: Seq<u32>,
    scales: Seq<u16>,
    biases: Seq<u16>,
    rows: int,
    cols: int,
    size: int,
    r: int,
    c: int,
)
    requires
        0 <= r < rows,
        0 < size,
        size % 8 == 0,
        0 <= c < cols / size * size,
        0 <= cols,
        rows * (cols / 8) <= packed.len(),
        rows * (cols / size) <= scales.len(),
        rows * (cols / size) <= biases.len(),
    ensures
        ({
            let word = packed[r * (cols / 8) + c / 8];
            let g = r * (cols / size) + c / size;
            int4_table::<A>(packed, scales, biases, rows, cols, size)[r * cols + c] == fadd::<A>(
                fmul::<A>(
                    ffrom_int::<A>(((word >> ((4 * (c % 8)) as u32)) & 0xF) as i64),
                    of_bf16(scales[g]),
                ),
                of_bf16(biases[g]),
            )
        }),
{
    let (wpr, groups, e) = (cols / 8, cols / size, size / 8);
    let (g, t) = (c / size, c % size);
    assert(size == 8 * e);
    vstd::arithmetic::div_mod::lemma_fundamental_div_mod(c, size);
    vstd::arithmetic::div_mod::lemma_fundamental_div_mod(cols, size);
    assert(size * g == 8 * (e * g)) by (nonlinear_arith)
        requires
            size == 8 * e,
    ;
    assert(0 <= g < groups) by (nonlinear_arith)
        requires
            c == size * g + t,
            0 <= t < size,
            0 <= c < groups * size,
    ;
    assert(size * groups == groups * size && g * e == e * g) by (nonlinear_arith);
    assert(c < cols);
    assert(c / 8 == g * e + t / 8 && c % 8 == t % 8);
    law_int4_table::<A>(packed, scales, biases, rows, cols, size, r, c);
    lemma_cell(r, rows, wpr);
    lemma_cell(r, rows, groups);
    assert(size * groups == 8 * (e * groups)) by (nonlinear_arith)
        requires
            size == 8 * e,
    ;
    assert(c / 8 < wpr);
    assert(packed.skip(r * wpr)[c / 8] == packed[r * wpr + c / 8]);
    assert(scales.skip(r * groups)[g] == scales[r * groups + g]);
    assert(biases.skip(r * groups)[g] == biases[r * groups + g]);
    assert(int4_row::<A>(packed, scales, biases, cols, size, r)[c] == fadd::<A>(
        fmul::<A>(
            ffrom_int::<A>(nibble(packed[r * wpr + c / 8], c % 8) as i64),
            of_bf16(scales[r * groups + g]),
        ),
        of_bf16(biases[r * groups + g]),
    ));
}

/// A table of four-bit numbers as it is written and as it is read: eight codes of a row to a word,
/// the first lowest, and one scale for every sixty-four numbers of a row.
pub proof fn law_fp4_layout<A: Arith>(
    vals: Seq<F32>,
    rows: int,
    cols: int,
    packed: Seq<u32>,
    scales: Seq<u16>,
    r: int,
    c: int,
)
    requires
        0 <= r < rows,
        0 <= c < cols / 64 * 64,
        rows_fit(vals.len() as int, rows, cols, cols / 64 * 64),
        fp4_encodes::<A>(vals, rows, cols, packed, scales),
    ensures
        ({
            let start = r * cols + c / 64 * 64;
            let group = vals.subrange(start, start + 64);
            let code = (packed[r * (cols / 8) + c / 8] >> ((4 * (c % 8)) as u32)) & 0xF;
            let scale = scales[r * (cols / 64) + c / 64];
            &&& code == fp4_code::<A>(group, vals[r * cols + c])
            &&& scale == bf16_of(fp4_scale::<A>(group))
            &&& fp4_entry::<A>(packed, scales, cols, r * cols + c) == fmul::<A>(
                fp4_value(code as int),
                of_bf16(scale),
            )
            &&& packed.len() == rows * (cols / 8)
            &&& scales.len() == rows * (cols / 64)
        }),
{
    let (g, groups) = (c / 64, cols / 64);
    law_fp4_nibble::<A>(vals, rows, cols, packed, scales, r, c);
    lemma_flat(r, c, cols);
    lemma_flat(r, g, groups);
    lemma_cell(r, rows, groups);
    assert(int4_group(vals, cols, r * groups + g) == vals.subrange(
        r * cols + g * 64,
        r * cols + g * 64 + 64,
    ));
}

/// A table of eight-bit numbers as it is written and as it is read: one byte for each number at its
/// own place, and one scale for every hundred and twenty-eight numbers of a row; what no group
/// holds is zero.
pub proof fn law_fp8_layout<A: Arith>(
    vals: Seq<F32>,
    rows: int,
    cols: int,
    packed: Seq<u8>,
    scales: Seq<u16>,
    r: int,
    c: int,
)
    requires
        0 <= r < rows,
        0 <= c < cols,
        fp8_encodes::<A>(vals, rows, cols, packed, scales),
    ensures
        ({
            let start = r * cols + c / 128 * 128;
            let group = vals.subrange(start, start + 128);
            let k = r * cols + c;
            let scale = scales[r * (cols / 128) + c / 128];
            let whole = c < cols / 128 * 128;
            &&& whole ==> packed[k] == fp8_group_code::<A>(group, vals[k])
            &&& whole ==> scale == bf16_of(fp8_scale::<A>(group))
            &&& whole ==> fp8_entry::<A>(packed, scales, cols, k) == fmul::<A>(
                fp8_value(packed[k] as int),
                of_bf16(scale),
            )
            &&& !whole ==> packed[k] == 0 && fp8_entry::<A>(packed, scales, cols, k) == zero()
            &&& packed.len() == rows * cols
            &&& scales.len() == rows * (cols / 128)
        }),
{
    let (g, groups) = (c / 128, cols / 128);
    let k = r * cols + c;
    lemma_flat(r, c, cols);
    lemma_cell(r, rows, cols);
    assert(packed[k] == fp8_byte::<A>(vals, cols, k));
    if c < groups * 128 {
        lemma_flat(r, g, groups);
        lemma_cell(r, rows, groups);
        assert(scales[r * groups + g] == bf16_of(
            fp8_scale::<A>(fp8_group(vals, cols, r * groups + g)),
        ));
    }
}

/// A table of signed bytes as it is written and as it is read: one code for each number at its own
/// place, and one scale for each row.
pub proof fn law_int8_layout<A: Arith>(
    vals: Seq<F32>,
    rows: int,
    cols: int,
    packed: Seq<i8>,
    scales: Seq<F32>,
    r: int,
    c: int,
)
    requires
        0 <= r < rows,
        0 <= c < cols,
        int8_encodes::<A>(vals, rows, cols, packed, scales),
    ensures
        ({
            let row = vals.subrange(r * cols, r * cols + cols);
            let k = r * cols + c;
            &&& packed[k] == int8_code::<A>(row, vals[k])
            &&& scales[r] == int8_scale::<A>(row)
            &&& int8_entry::<A>(packed, scales, cols, k) == fmul::<A>(
                ffrom_int::<A>(packed[k] as i64),
                scales[r],
            )
            &&& packed.len() == rows * cols
            &&& scales.len() == rows
        }),
{
    lemma_flat(r, c, cols);
    lemma_cell(r, rows, cols);
    let k = r * cols + c;
    assert(packed[k] == int8_code::<A>(table_row(vals, cols, k / cols), vals[k]));
    assert(scales[r] == int8_scale::<A>(table_row(vals, cols, r)));
}

/// A tensor of a table is described by a suffix, the name of its format, and a shape of two sizes,
/// and its bytes are those of that many numbers.
pub open spec fn described(
    t: EncodedTensor,
    suffix: Seq<char>,
    format: Seq<char>,
    rows: int,
    cols: int,
    width: int,
) -> bool {
    &&& t.suffix@ == suffix
    &&& t.dtype@ == format
    &&& t.shape@.len() == 2
    &&& t.shape@[0] == rows
    &&& t.shape@[1] == cols
    &&& t.data@.len() == width * (rows * cols)
}

/// The tensors of a table of four-bit integers: each code, scale and bias is read from its own
/// place in the bytes, lowest byte first.
pub proof fn law_int4_stored<A: Arith>(
    vals: Seq<F32>,
    rows: int,
    cols: int,
    t: Seq<EncodedTensor>,
    r: int,
    c: int,
)
    requires
        0 <= r < rows,
        0 <= c < cols / 64 * 64,
        rows_fit(vals.len() as int, rows, cols, cols / 64 * 64),
        int4_tensors::<A>(vals, rows, cols, t),
    ensures
        ({
            let start = r * cols + c / 64 * 64;
            let group = vals.subrange(start, start + 64);
            let word = u32_at(t[0].data@, 4 * (r * (cols / 8) + c / 8));
            let g = r * (cols / 64) + c / 64;
            &&& t.len() == 3
            &&& described(t[0], ".weight"@, "u32"@, rows, cols / 8, 4)
            &&& described(t[1], ".scales"@, "bf16"@, rows, cols / 64, 2)
            &&& described(t[2], ".biases"@, "bf16"@, rows, cols / 64, 2)
            &&& (word >> ((4 * (c % 8)) as u32)) & 0xF == int4_code::<A>(
                group,
                vals[r * cols + c],
            )
            &&& u16_at(t[1].data@, 2 * g) == bf16_of(int4_scale::<A>(group))
            &&& u16_at(t[2].data@, 2 * g) == bf16_of(least(group, 64))
        }),
{
    let (packed, scales, biases) = choose|packed: Seq<u32>, scales: Seq<u16>, biases: Seq<u16>|
        {
            &&& #[trigger] int4_encodes::<A>(vals, rows, cols, packed, scales, biases)
            &&& t.len() == 3
            &&& is_tensor(t[0], bytes32(packed), ".weight"@, seq![rows, cols / 8], DType::Int4)
            &&& is_tensor(t[1], bytes16(scales), ".scales"@, seq![rows, cols / 64], DType::Bf16)
            &&& is_tensor(t[2], bytes16(biases), ".biases"@, seq![rows, cols / 64], DType::Bf16)
        };
    law_int4_written::<A>(vals, rows, cols, packed, scales, biases, r, c);
    lemma_cell(r, rows, cols / 8);
    lemma_cell(r, rows, cols / 64);
    let g = r * (cols / 64) + c / 64;
    law_bytes32_round_trip(packed, r * (cols / 8) + c / 8);
    law_bytes16_round_trip(scales, g);
    law_bytes16_round_trip(biases, g);
    lemma_two_sizes(t[0], rows, cols / 8);
    lemma_two_sizes(t[1], rows, cols / 64);
    lemma_two_sizes(t[2], rows, cols / 64);
}

proof fn lemma_two_sizes(t: EncodedTensor, a: int, b: int)
    requires
        t.shape@.len() == 2,
        forall|i: int| 0 <= i < seq![a, b].len() ==> #[trigger] t.shape@[i] == seq![a, b][i],
    ensures
        t.shape@[0] == a,
        t.shape@[1] == b,
{
    assert(t.shape@[0] == seq![a, b][0]);
    assert(t.shape@[1] == seq![a, b][1]);
}

/// The tensors of a table of four-bit numbers: each code and scale is read from its own place in
/// the bytes, lowest byte first.
pub proof fn law_fp4_stored<A: Arith>(
    vals: Seq<F32>,
    rows: int,
    cols: int,
    t: Seq<EncodedTensor>,
    r: int,
    c: int,
)
    requires
        0 <= r < rows,
        0 <= c < cols / 64 * 64,
        rows_fit(vals.len() as int, rows, cols, cols / 64 * 64),
        fp4_tensors::<A>(vals, rows, cols, t),
    ensures
        ({
            let start = r * cols + c / 64 * 64;
            let group = vals.subrange(start, start + 64);
            let word = u32_at(t[0].data@, 4 * (r * (cols / 8) + c / 8));
            let g = r * (cols / 64) + c / 64;
            &&& t.len() == 2
            &&& described(t[0], ".weight"@, "fp4_e2m1"@, rows, cols / 8, 4)
            &&& described(t[1], ".scales"@, "bf16"@, rows, cols / 64, 2)
            &&& (word >> ((4 * (c % 8)) as u32)) & 0xF == fp4_code::<A>(group, vals[r * cols + c])
            &&& u16_at(t[1].data@, 2 * g) == bf16_of(fp4_scale::<A>(group))
        }),
{
    let (packed, scales) = choose|packed: Seq<u32>, scales: Seq<u16>|
        {
            &&& #[trigger] fp4_encodes::<A>(vals, rows, cols, packed, scales)
            &&& t.len() == 2
            &&& is_tensor(t[0], bytes32(packed), ".weight"@, seq![rows, cols / 8], DType::Fp4E2m1)
            &&& is_tensor(t[1], bytes16(scales), ".scales"@, seq![rows, cols / 64], DType::Bf16)
        };
    law_fp4_layout::<A>(vals, rows, cols, packed, scales, r, c);
    lemma_cell(r, rows, cols / 8);
    lemma_cell(r, rows, cols / 64);
    law_bytes32_round_trip(packed, r * (cols / 8) + c / 8);
    law_bytes16_round_trip(scales, r * (cols / 64) + c / 64);
    lemma_two_sizes(t[0], rows, cols / 8);
    lemma_two_sizes(t[1], rows, cols / 64);
}

/// The tensors of a table of eight-bit numbers: each code is the byte at its place, and each scale
/// is read from its own place, lowest byte first.
pub proof fn law_fp8_stored<A: Arith>(
    vals: Seq<F32>,
    rows: int,
    cols: int,
    t: Seq<EncodedTensor>,
    r: int,
    c: int,
)
    requires
        0 <= r < rows,
        0 <= c < cols / 128 * 128,
        fp8_tensors::<A>(vals, rows, cols, t),
    ensures
        ({
            let start = r * cols + c / 128 * 128;
            let group = vals.subrange(start, start + 128);
            let k = r * cols + c;
            let g = r * (cols / 128) + c / 128;
            &&& t.len() == 2
            &&& described(t[0], ".weight"@, "fp8_e4m3"@, rows, cols, 1)
            &&& described(t[1], ".scales"@, "bf16"@, rows, cols / 128, 2)
            &&& t[0].data@[k] == fp8_group_code::<A>(group, vals[k])
            &&& u16_at(t[1].data@, 2 * g) == bf16_of(fp8_scale::<A>(group))
        }),
{
    let (packed, scales) = choose|packed: Seq<u8>, scales: Seq<u16>|
        {
            &&& #[trigger] fp8_encodes::<A>(vals, rows, cols, packed, scales)
            &&& t.len() == 2
            &&& is_tensor(t[0], packed, ".weight"@, seq![rows, cols], DType::Fp8E4m3)
            &&& is_tensor(t[1], bytes16(scales), ".scales"@, seq![rows, cols / 128], DType::Bf16)
        };
    law_fp8_layout::<A>(vals, rows, cols, packed, scales, r, c);
    lemma_cell(r, rows, cols / 128);
    law_bytes16_round_trip(scales, r * (cols / 128) + c / 128);
    lemma_two_sizes(t[0], rows, cols);
    lemma_two_sizes(t[1], rows, cols / 128);
}

/// The tensors of a table of signed bytes: each code is the byte at its place, in two's complement,
/// and the scale of each row is read from its own place, lowest byte first.
pub proof fn law_int8_stored<A: Arith>(
    vals: Seq<F32>,
    rows: int,
    cols: int,
    t: Seq<EncodedTensor>,
    r: int,
    c: int,
)
    requires
        0 <= r < rows,
        0 <= c < cols,
        int8_tensors::<A>(vals, rows, cols, t),
    ensures
        ({
            let row = vals.subrange(r * cols, r * cols + cols);
            let k = r * cols + c;
            let code = int8_code::<A>(row, vals[k]);
            &&& t.len() == 2
            &&& described(t[0], ".weight"@, "u8"@, rows, cols, 1)
            &&& t[1].suffix@ == ".scales"@
            &&& t[1].dtype@ == "f32"@
            &&& t[1].shape@.len() == 1
            &&& t[1].shape@[0] == rows
            &&& t[1].data@.len() == 4 * rows
            &&& t[0].data@[k] == if code < 0 {
                code + 256
            } else {
                code as int
            }
            &&& u32_at(t[1].data@, 4 * r) == int8_scale::<A>(row).bits
        }),
{
    let (packed, scales) = choose|packed: Seq<i8>, scales: Seq<F32>|
        {
            &&& #[trigger] int8_encodes::<A>(vals, rows, cols, packed, scales)
            &&& t.len() == 2
            &&& is_tensor(t[0], bytes8(packed), ".weight"@, seq![rows, cols], DType::Int8)
            &&& is_tensor(t[1], bytes32(bits_of(scales)), ".scales"@, seq![rows], DType::Fp32)
        };
    law_int8_layout::<A>(vals, rows, cols, packed, scales, r, c);
    lemma_cell(r, rows, cols);
    law_signed_bytes(packed, r * cols + c);
    law_bytes32_round_trip(bits_of(scales), r);
    lemma_two_sizes(t[0], rows, cols);
    assert(t[1].shape@[0] == seq![rows][0]);
}

/// Plain numbers: one tensor without a suffix, with the numbers in order, as they are or rounded to
/// half the bits, lowest byte first.
pub proof fn law_plain_stored(vals: Seq<F32>, t: Seq<EncodedTensor>, i: int)
    requires
        0 <= i < vals.len(),
    ensures
        bf16_tensors(vals, t) ==> {
            &&& t.len() == 1
            &&& t[0].suffix@.len() == 0
            &&& t[0].dtype@ == "bf16"@
            &&& t[0].shape@.len() == 1
            &&& t[0].shape@[0] == vals.len()
            &&& t[0].data@.len() == 2 * vals.len()
            &&& u16_at(t[0].data@, 2 * i) == bf16_of(vals[i])
        },
        fp32_tensors(vals, t) ==> {
            &&& t.len() == 1
            &&& t[0].suffix@.len() == 0
            &&& t[0].dtype@ == "f32"@
            &&& t[0].shape@.len() == 1
            &&& t[0].shape@[0] == vals.len()
            &&& t[0].data@.len() == 4 * vals.len()
            &&& u32_at(t[0].data@, 4 * i) == vals[i].bits
        },
{
    reveal_strlit("");
    law_bytes16_round_trip(Seq::new(vals.len(), |j: int| bf16_of(vals[j])), i);
    law_bytes32_round_trip(bits_of(vals), i);
    if bf16_tensors(vals, t) || fp32_tensors(vals, t) {
        assert(t[0].shape@[0] == seq![vals.len() as int][0]);
    }
}

} // verus!
