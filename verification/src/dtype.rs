//! The storage formats of weight tensors.

use crate::bf16::{bf16_of, f32_to_bf16_u16};
use crate::bytes::{
    bits_of, bytes16, bytes32, bytes8, f32s_to_bytes, i8s_to_bytes, u16s_to_bytes, u32s_to_bytes,
};
use crate::float::{Arith, F32, deterministic};
use crate::fp4::{fp4_encodes, groups_finite, quant_f32_to_fp4_e2m1};
use crate::fp8::{FP8_GROUP_SIZE, fp8_encodes, quant_f32_to_fp8_e4m3};
use crate::grid::rows_fit;
use crate::int4::{GROUP_SIZE, int4_encodes, quant_f32_to_int4};
use crate::int8::{int8_encodes, quant_f32_to_int8};
use crate::text::same_text;
use vstd::prelude::*;

verus! {

/// The binary format of a tensor's data.
#[derive(Clone, Copy, PartialEq, Eq, Structural, Debug)]
pub enum DType {
    Fp32,
    Bf16,
    Int4,
    Int8,
    Fp4E2m1,
    Fp8E4m3,
}

/// The name of a format in a weight manifest.
pub open spec fn dtype_name(d: DType) -> Seq<char> {
    match d {
        DType::Fp32 => "f32"@,
        DType::Bf16 => "bf16"@,
        DType::Int4 => "u32"@,
        DType::Int8 => "u8"@,
        DType::Fp4E2m1 => "fp4_e2m1"@,
        DType::Fp8E4m3 => "fp8_e4m3"@,
    }
}

/// The format that a name stands for.
pub open spec fn dtype_of(name: Seq<char>) -> Option<DType> {
    if name == "f32"@ {
        Some(DType::Fp32)
    } else if name == "bf16"@ {
        Some(DType::Bf16)
    } else if name == "u32"@ {
        Some(DType::Int4)
    } else if name == "u8"@ {
        Some(DType::Int8)
    } else if name == "fp4_e2m1"@ {
        Some(DType::Fp4E2m1)
    } else if name == "fp8_e4m3"@ {
        Some(DType::Fp8E4m3)
    } else {
        None
    }
}

/// The name of a format is read back as that format, and no other text is.
pub proof fn law_dtype_round_trip(d: DType, name: Seq<char>)
    ensures
        dtype_of(dtype_name(d)) == Some(d),
        dtype_of(name) == Some(d) ==> name == dtype_name(d),
{
    reveal_strlit("f32");
    reveal_strlit("bf16");
    reveal_strlit("u32");
    reveal_strlit("u8");
    reveal_strlit("fp4_e2m1");
    reveal_strlit("fp8_e4m3");
    assert("f32"@.len() == 3 && "bf16"@.len() == 4 && "u32"@.len() == 3 && "u8"@.len() == 2);
    assert("fp4_e2m1"@.len() == 8 && "fp8_e4m3"@.len() == 8);
    assert("f32"@[0] != "u32"@[0]);
    assert("fp4_e2m1"@[2] != "fp8_e4m3"@[2]);
}

/// The format with a given name, where there is one.
pub fn string_to_dtype(dtype: &str) -> (r: Option<DType>)
    ensures
        r == dtype_of(dtype@),
{
    if same_text(dtype, "f32") {
        Some(DType::Fp32)
    } else if same_text(dtype, "bf16") {
        Some(DType::Bf16)
    } else if same_text(dtype, "u32") {
        Some(DType::Int4)
    } else if same_text(dtype, "u8") {
        Some(DType::Int8)
    } else if same_text(dtype, "fp4_e2m1") {
        Some(DType::Fp4E2m1)
    } else if same_text(dtype, "fp8_e4m3") {
        Some(DType::Fp8E4m3)
    } else {
        None
    }
}

/// One tensor of an encoding.
pub struct EncodedTensor {
    pub data: Vec<u8>,
    pub suffix: &'static str,
    pub shape: Vec<usize>,
    pub dtype: &'static str,
}

/// A tensor has the given bytes, name suffix, shape and format.
pub open spec fn is_tensor(
    t: EncodedTensor,
    data: Seq<u8>,
    suffix: Seq<char>,
    shape: Seq<int>,
    dtype: DType,
) -> bool {
    &&& t.data@ == data
    &&& t.suffix@ == suffix
    &&& t.shape@.len() == shape.len()
    &&& forall|i: int| 0 <= i < shape.len() ==> #[trigger] t.shape@[i] == shape[i]
    &&& t.dtype@ == dtype_name(dtype)
}

/// The tensors of a table in four-bit integers: words, scales and biases.
pub open spec fn int4_tensors<A: Arith>(
    vals: Seq<F32>,
    out_dim: int,
    in_dim: int,
    t: Seq<EncodedTensor>,
) -> bool {
    exists|packed: Seq<u32>, scales: Seq<u16>, biases: Seq<u16>|
        {
            &&& #[trigger] int4_encodes::<A>(vals, out_dim, in_dim, packed, scales, biases)
            &&& t.len() == 3
            &&& is_tensor(
                t[0],
                bytes32(packed),
                ".weight"@,
                seq![out_dim, in_dim / 8],
                DType::Int4,
            )
            &&& is_tensor(
                t[1],
                bytes16(scales),
                ".scales"@,
                seq![out_dim, in_dim / 64],
                DType::Bf16,
            )
            &&& is_tensor(
                t[2],
                bytes16(biases),
                ".biases"@,
                seq![out_dim, in_dim / 64],
                DType::Bf16,
            )
        }
}

/// The tensors of a table in four-bit floating point: words and scales.
pub open spec fn fp4_tensors<A: Arith>(
    vals: Seq<F32>,
    out_dim: int,
    in_dim: int,
    t: Seq<EncodedTensor>,
) -> bool {
    exists|packed: Seq<u32>, scales: Seq<u16>|
        {
            &&& #[trigger] fp4_encodes::<A>(vals, out_dim, in_dim, packed, scales)
            &&& t.len() == 2
            &&& is_tensor(
                t[0],
                bytes32(packed),
                ".weight"@,
                seq![out_dim, in_dim / 8],
                DType::Fp4E2m1,
            )
            &&& is_tensor(
                t[1],
                bytes16(scales),
                ".scales"@,
                seq![out_dim, in_dim / 64],
                DType::Bf16,
            )
        }
}

/// The tensors of a table in eight-bit floating point: bytes and scales.
pub open spec fn fp8_tensors<A: Arith>(
    vals: Seq<F32>,
    out_dim: int,
    in_dim: int,
    t: Seq<EncodedTensor>,
) -> bool {
    exists|packed: Seq<u8>, scales: Seq<u16>|
        {
            &&& #[trigger] fp8_encodes::<A>(vals, out_dim, in_dim, packed, scales)
            &&& t.len() == 2
            &&& is_tensor(t[0], packed, ".weight"@, seq![out_dim, in_dim], DType::Fp8E4m3)
            &&& is_tensor(
                t[1],
                bytes16(scales),
                ".scales"@,
                seq![out_dim, in_dim / 128],
                DType::Bf16,
            )
        }
}

/// The tensors of a table in eight-bit integers: bytes and one scale for each row.
pub open spec fn int8_tensors<A: Arith>(
    vals: Seq<F32>,
    out_dim: int,
    in_dim: int,
    t: Seq<EncodedTensor>,
) -> bool {
    exists|packed: Seq<i8>, scales: Seq<F32>|
        {
            &&& #[trigger] int8_encodes::<A>(vals, out_dim, in_dim, packed, scales)
            &&& t.len() == 2
            &&& is_tensor(t[0], bytes8(packed), ".weight"@, seq![out_dim, in_dim], DType::Int8)
            &&& is_tensor(
                t[1],
                bytes32(bits_of(scales)),
                ".scales"@,
                seq![out_dim],
                DType::Fp32,
            )
        }
}

/// The tensor of numbers in half the bits.
pub open spec fn bf16_tensors(vals: Seq<F32>, t: Seq<EncodedTensor>) -> bool {
    &&& t.len() == 1
    &&& is_tensor(
        t[0],
        bytes16(Seq::new(vals.len(), |i: int| bf16_of(vals[i]))),
        ""@,
        seq![vals.len() as int],
        DType::Bf16,
    )
}

/// The tensor of numbers as they are.
pub open spec fn fp32_tensors(vals: Seq<F32>, t: Seq<EncodedTensor>) -> bool {
    &&& t.len() == 1
    &&& is_tensor(t[0], bytes32(bits_of(vals)), ""@, seq![vals.len() as int], DType::Fp32)
}

/// What encoding a table of `out_dim` rows of `in_dim` numbers needs: the numbers of all whole
/// groups, or of all rows; nothing for a plain list. Four-bit floating point takes finite numbers.
pub open spec fn encodable(d: DType, vals: Seq<F32>, out_dim: int, in_dim: int) -> bool {
    let len = vals.len() as int;
    match d {
        DType::Int4 => out_dim * in_dim <= usize::MAX && rows_fit(
            len,
            out_dim,
            in_dim,
            in_dim / 64 * 64,
        ),
        DType::Fp4E2m1 => out_dim * in_dim <= usize::MAX && rows_fit(
            len,
            out_dim,
            in_dim,
            in_dim / 64 * 64,
        ) && groups_finite(vals, out_dim, in_dim),
        DType::Fp8E4m3 => out_dim * in_dim <= usize::MAX && rows_fit(
            len,
            out_dim,
            in_dim,
            in_dim / 128 * 128,
        ),
        DType::Int8 => out_dim * in_dim <= len,
        DType::Bf16 => true,
        DType::Fp32 => true,
    }
}

/// The tensors of a format have its suffixes, and the formats that go with them.
pub open spec fn named(d: DType, t: Seq<EncodedTensor>) -> bool {
    let is = |i: int, suffix: Seq<char>, f: DType|
        t[i].suffix@ == suffix && t[i].dtype@ == dtype_name(f);
    match d {
        DType::Int4 => {
            &&& t.len() == 3
            &&& is(0, ".weight"@, DType::Int4)
            &&& is(1, ".scales"@, DType::Bf16)
            &&& is(2, ".biases"@, DType::Bf16)
        },
        DType::Int8 => {
            &&& t.len() == 2
            &&& is(0, ".weight"@, DType::Int8)
            &&& is(1, ".scales"@, DType::Fp32)
        },
        DType::Bf16 => t.len() == 1 && is(0, ""@, DType::Bf16),
        DType::Fp32 => t.len() == 1 && is(0, ""@, DType::Fp32),
        DType::Fp4E2m1 => {
            &&& t.len() == 2
            &&& is(0, ".weight"@, DType::Fp4E2m1)
            &&& is(1, ".scales"@, DType::Bf16)
        },
        DType::Fp8E4m3 => {
            &&& t.len() == 2
            &&& is(0, ".weight"@, DType::Fp8E4m3)
            &&& is(1, ".scales"@, DType::Bf16)
        },
    }
}

/// The format of an encoding is read back from its first tensor.
pub proof fn law_format_read_back(d: DType, t: Seq<EncodedTensor>)
    requires
        named(d, t),
    ensures
        t.len() > 0,
        dtype_of(t[0].dtype@) == Some(d),
{
    law_dtype_round_trip(d, t[0].dtype@);
}

/// The tensors are the encoding of the numbers in a format.
pub open spec fn encodes<A: Arith>(
    d: DType,
    vals: Seq<F32>,
    out_dim: int,
    in_dim: int,
    t: Seq<EncodedTensor>,
) -> bool {
    match d {
        DType::Int4 => int4_tensors::<A>(vals, out_dim, in_dim, t),
        DType::Int8 => int8_tensors::<A>(vals, out_dim, in_dim, t),
        DType::Bf16 => bf16_tensors(vals, t),
        DType::Fp32 => fp32_tensors(vals, t),
        DType::Fp4E2m1 => fp4_tensors::<A>(vals, out_dim, in_dim, t),
        DType::Fp8E4m3 => fp8_tensors::<A>(vals, out_dim, in_dim, t),
    }
}

fn tensor(
    data: Vec<u8>,
    suffix: &'static str,
    shape: Vec<usize>,
    dtype: DType,
) -> (r: EncodedTensor)
    ensures
        r.data == data,
        r.suffix == suffix,
        r.shape == shape,
        r.dtype@ == dtype_name(dtype),
{
    EncodedTensor { data, suffix, shape, dtype: dtype.as_str() }
}

fn encode_fp8_e4m3<A: Arith>(f32_vals: &[F32], out_dim: usize, in_dim: usize) -> (r: Vec<
    EncodedTensor,
>)
    requires
        encodable(DType::Fp8E4m3, f32_vals@, out_dim as int, in_dim as int),
    ensures
        named(DType::Fp8E4m3, r@),
        deterministic::<A>() ==> fp8_tensors::<A>(f32_vals@, out_dim as int, in_dim as int, r@),
{
    let num_groups: usize = in_dim / FP8_GROUP_SIZE;
    let (packed, scales) = quant_f32_to_fp8_e4m3::<A>(f32_vals, out_dim, in_dim);
    let scale_bytes: Vec<u8> = u16s_to_bytes(scales.as_slice());
    let ghost p = packed@;
    let mut out: Vec<EncodedTensor> = Vec::new();
    out.push(tensor(packed, ".weight", vec![out_dim, in_dim], DType::Fp8E4m3));
    out.push(tensor(scale_bytes, ".scales", vec![out_dim, num_groups], DType::Bf16));
    proof {
        if deterministic::<A>() {
            assert(fp8_encodes::<A>(f32_vals@, out_dim as int, in_dim as int, p, scales@));
        }
    }
    out
}

fn encode_fp4_e2m1<A: Arith>(f32_vals: &[F32], out_dim: usize, in_dim: usize) -> (r: Vec<
    EncodedTensor,
>)
    requires
        encodable(DType::Fp4E2m1, f32_vals@, out_dim as int, in_dim as int),
    ensures
        named(DType::Fp4E2m1, r@),
        deterministic::<A>() ==> fp4_tensors::<A>(f32_vals@, out_dim as int, in_dim as int, r@),
{
    let num_groups: usize = in_dim / GROUP_SIZE;
    let (packed, scales) = quant_f32_to_fp4_e2m1::<A>(f32_vals, out_dim, in_dim);
    let packed_bytes: Vec<u8> = u32s_to_bytes(packed.as_slice());
    let scale_bytes: Vec<u8> = u16s_to_bytes(scales.as_slice());
    let mut out: Vec<EncodedTensor> = Vec::new();
    out.push(tensor(packed_bytes, ".weight", vec![out_dim, in_dim / 8], DType::Fp4E2m1));
    out.push(tensor(scale_bytes, ".scales", vec![out_dim, num_groups], DType::Bf16));
    proof {
        if deterministic::<A>() {
            assert(fp4_encodes::<A>(
                f32_vals@,
                out_dim as int,
                in_dim as int,
                packed@,
                scales@,
            ));
        }
    }
    out
}

fn encode_int4<A: Arith>(f32_vals: &[F32], out_dim: usize, in_dim: usize) -> (r: Vec<EncodedTensor>)
    requires
        encodable(DType::Int4, f32_vals@, out_dim as int, in_dim as int),
    ensures
        named(DType::Int4, r@),
        deterministic::<A>() ==> int4_tensors::<A>(f32_vals@, out_dim as int, in_dim as int, r@),
{
    let num_groups: usize = in_dim / GROUP_SIZE;
    let (packed, scales, biases) = quant_f32_to_int4::<A>(f32_vals, out_dim, in_dim);
    let packed_bytes: Vec<u8> = u32s_to_bytes(packed.as_slice());
    let scale_bytes: Vec<u8> = u16s_to_bytes(scales.as_slice());
    let bias_bytes: Vec<u8> = u16s_to_bytes(biases.as_slice());
    let mut out: Vec<EncodedTensor> = Vec::new();
    out.push(tensor(packed_bytes, ".weight", vec![out_dim, in_dim / 8], DType::Int4));
    out.push(tensor(scale_bytes, ".scales", vec![out_dim, num_groups], DType::Bf16));
    out.push(tensor(bias_bytes, ".biases", vec![out_dim, num_groups], DType::Bf16));
    proof {
        if deterministic::<A>() {
            assert(int4_encodes::<A>(
                f32_vals@,
                out_dim as int,
                in_dim as int,
                packed@,
                scales@,
                biases@,
            ));
        }
    }
    out
}

fn encode_bf16(f32_vals: &[F32]) -> (r: Vec<EncodedTensor>)
    ensures
        named(DType::Bf16, r@),
        bf16_tensors(f32_vals@, r@),
{
    let v: Vec<u16> = f32_to_bf16_u16(f32_vals);
    let bytes: Vec<u8> = u16s_to_bytes(v.as_slice());
    assert(v@ =~= Seq::new(f32_vals@.len(), |i: int| bf16_of(f32_vals@[i])));
    let mut out: Vec<EncodedTensor> = Vec::new();
    out.push(tensor(bytes, "", vec![f32_vals.len()], DType::Bf16));
    out
}

fn encode_fp32(f32_vals: &[F32]) -> (r: Vec<EncodedTensor>)
    ensures
        named(DType::Fp32, r@),
        fp32_tensors(f32_vals@, r@),
{
    let bytes: Vec<u8> = f32s_to_bytes(f32_vals);
    let mut out: Vec<EncodedTensor> = Vec::new();
    out.push(tensor(bytes, "", vec![f32_vals.len()], DType::Fp32));
    out
}

fn encode_int8<A: Arith>(f32_vals: &[F32], out_dim: usize, in_dim: usize) -> (r: Vec<EncodedTensor>)
    requires
        encodable(DType::Int8, f32_vals@, out_dim as int, in_dim as int),
    ensures
        named(DType::Int8, r@),
        deterministic::<A>() ==> int8_tensors::<A>(f32_vals@, out_dim as int, in_dim as int, r@),
{
    let (packed, scales) = quant_f32_to_int8::<A>(f32_vals, out_dim, in_dim);
    let packed_bytes: Vec<u8> = i8s_to_bytes(packed.as_slice());
    let scale_bytes: Vec<u8> = f32s_to_bytes(scales.as_slice());
    let mut out: Vec<EncodedTensor> = Vec::new();
    out.push(tensor(packed_bytes, ".weight", vec![out_dim, in_dim], DType::Int8));
    out.push(tensor(scale_bytes, ".scales", vec![out_dim], DType::Fp32));
    proof {
        if deterministic::<A>() {
            assert(int8_encodes::<A>(
                f32_vals@,
                out_dim as int,
                in_dim as int,
                packed@,
                scales@,
            ));
        }
    }
    out
}

impl DType {
    /// The name of the format in a weight manifest.
    pub fn as_str(self) -> (r: &'static str)
        ensures
            r@ == dtype_name(self),
    {
        match self {
            DType::Fp32 => "f32",
            DType::Bf16 => "bf16",
            DType::Int4 => "u32",
            DType::Int8 => "u8",
            DType::Fp4E2m1 => "fp4_e2m1",
            DType::Fp8E4m3 => "fp8_e4m3",
        }
    }

    /// Encodes a table of `out_dim` rows of `in_dim` numbers.
    pub fn encode<A: Arith>(self, f32_vals: &[F32], out_dim: usize, in_dim: usize) -> (r: Vec<
        EncodedTensor,
    >)
        requires
            encodable(self, f32_vals@, out_dim as int, in_dim as int),
        ensures
            named(self, r@),
            deterministic::<A>() ==> encodes::<A>(
                self,
                f32_vals@,
                out_dim as int,
                in_dim as int,
                r@,
            ),
            self == DType::Bf16 ==> bf16_tensors(f32_vals@, r@),
            self == DType::Fp32 ==> fp32_tensors(f32_vals@, r@),
    {
        match self {
            DType::Int4 => encode_int4::<A>(f32_vals, out_dim, in_dim),
            DType::Int8 => encode_int8::<A>(f32_vals, out_dim, in_dim),
            DType::Bf16 => encode_bf16(f32_vals),
            DType::Fp32 => encode_fp32(f32_vals),
            DType::Fp4E2m1 => encode_fp4_e2m1::<A>(f32_vals, out_dim, in_dim),
            DType::Fp8E4m3 => encode_fp8_e4m3::<A>(f32_vals, out_dim, in_dim),
        }
    }
}

/// Four-bit integers take 36 bytes for each group of 64 numbers where rows are whole groups.
pub proof fn law_int4_storage<A: Arith>(
    vals: Seq<F32>,
    out_dim: int,
    in_dim: int,
    t: Seq<EncodedTensor>,
)
    requires
        0 <= out_dim,
        0 <= in_dim,
        in_dim % 64 == 0,
        int4_tensors::<A>(vals, out_dim, in_dim, t),
    ensures
        t[0].data@.len() + t[1].data@.len() + t[2].data@.len() == 36 * (out_dim * (in_dim / 64)),
        (t[0].data@.len() + t[1].data@.len() + t[2].data@.len()) * 16 == 9 * (out_dim * in_dim),
{
    let (packed, scales, biases) = choose|packed: Seq<u32>, scales: Seq<u16>, biases: Seq<u16>|
        {
            &&& #[trigger] int4_encodes::<A>(vals, out_dim, in_dim, packed, scales, biases)
            &&& t.len() == 3
            &&& is_tensor(
                t[0],
                bytes32(packed),
                ".weight"@,
                seq![out_dim, in_dim / 8],
                DType::Int4,
            )
            &&& is_tensor(
                t[1],
                bytes16(scales),
                ".scales"@,
                seq![out_dim, in_dim / 64],
                DType::Bf16,
            )
            &&& is_tensor(
                t[2],
                bytes16(biases),
                ".biases"@,
                seq![out_dim, in_dim / 64],
                DType::Bf16,
            )
        };
    let g = in_dim / 64;
    assert(in_dim / 8 == 8 * g && in_dim == 64 * g);
    assert(out_dim * (8 * g) == 8 * (out_dim * g) && out_dim * (64 * g) == 64 * (out_dim * g))
        by (nonlinear_arith);
}

/// Eight-bit integers take a byte for each number and four bytes for the scale of each row.
pub proof fn law_int8_storage<A: Arith>(
    vals: Seq<F32>,
    out_dim: int,
    in_dim: int,
    t: Seq<EncodedTensor>,
)
    requires
        int8_tensors::<A>(vals, out_dim, in_dim, t),
    ensures
        t[0].data@.len() == out_dim * in_dim,
        t[1].data@.len() == 4 * out_dim,
{
    let (packed, scales) = choose|packed: Seq<i8>, scales: Seq<F32>|
        {
            &&& #[trigger] int8_encodes::<A>(vals, out_dim, in_dim, packed, scales)
            &&& t.len() == 2
            &&& is_tensor(t[0], bytes8(packed), ".weight"@, seq![out_dim, in_dim], DType::Int8)
            &&& is_tensor(
                t[1],
                bytes32(bits_of(scales)),
                ".scales"@,
                seq![out_dim],
                DType::Fp32,
            )
        };
    assert(bytes8(packed).len() == packed.len());
    assert(bytes32(bits_of(scales)).len() == 4 * scales.len());
}

} // verus!
