//! Storage formats and the numbers they hold.

use moe_infer::bf16::{bf16_to_f32, f32_to_bf16_u16, f32_to_bf16_u16_single};
use moe_infer::bytes::{
    bytes_to_u16s, bytes_to_u32s, f32s_to_bytes, i8s_to_bytes, u16s_to_bytes, u32s_to_bytes,
};
use moe_infer::dtype::{string_to_dtype, DType};
use moe_infer::float::{half, infinity, neg_infinity, one, zero, Arith, F32};
use moe_infer::fp4::{fp4_e2m1_to_f32, fp4_e2m1_to_f32_full, quant_f32_to_fp4_e2m1};
use moe_infer::fp8::{
    f32_to_fp8_e4m3, fp8_e4m3_lut, fp8_e4m3_to_f32, fp8_e4m3_to_f32_full, quant_f32_to_fp8_e4m3,
};
use moe_infer::int4::{dequant_matrix, dequant_row, int4_to_f32, quant_f32_to_int4, GROUP_SIZE};
use moe_infer::int8::{int8_to_f32, largest_abs, quant_f32_to_int8};
use moe_infer::nibble::{get_nibble, pack_nibbles};

/// The machine's own single-precision arithmetic.
struct Machine;

fn wrap(x: f32) -> F32 {
    F32 { bits: x.to_bits() }
}

fn open(x: F32) -> f32 {
    f32::from_bits(x.bits)
}

fn wraps(x: &[f32]) -> Vec<F32> {
    x.iter().map(|&v| wrap(v)).collect()
}

fn opens(x: &[F32]) -> Vec<f32> {
    x.iter().map(|&v| open(v)).collect()
}

impl Arith for Machine {
    fn add(a: F32, b: F32) -> F32 {
        wrap(open(a) + open(b))
    }

    fn sub(a: F32, b: F32) -> F32 {
        wrap(open(a) - open(b))
    }

    fn mul(a: F32, b: F32) -> F32 {
        wrap(open(a) * open(b))
    }

    fn div(a: F32, b: F32) -> F32 {
        wrap(open(a) / open(b))
    }

    fn sqrt(a: F32) -> F32 {
        wrap(open(a).sqrt())
    }

    fn exp(a: F32) -> F32 {
        wrap(open(a).exp())
    }

    fn ln(a: F32) -> F32 {
        wrap(open(a).ln())
    }

    fn round(a: F32) -> F32 {
        wrap(open(a).round())
    }

    fn to_i32(a: F32) -> i32 {
        open(a) as i32
    }

    fn from_int(n: i64) -> F32 {
        wrap(n as f32)
    }

    fn sum(s: &[F32]) -> F32 {
        wrap(s.iter().map(|&v| open(v)).sum())
    }

    fn dot(a: &[F32], b: &[F32]) -> F32 {
        wrap(a.iter().zip(b.iter()).map(|(&x, &y)| open(x) * open(y)).sum())
    }

    fn rotary(pos: usize, d: usize, rotary_dim: usize, theta: u64) -> (F32, F32) {
        let base = f64::from_bits(theta);
        let angle = pos as f32 as f64 * base.powf(-2.0 * (d as f64) / rotary_dim as f64);
        (wrap(angle.cos() as f32), wrap(angle.sin() as f32))
    }
}

#[test]
fn test_int4_roundtrip() {
    let out_dim = 2;
    let in_dim = 128;
    let vals: Vec<f32> = (0..(out_dim * in_dim)).map(|i| (i as f32).sin()).collect();
    let (p, s, b) = quant_f32_to_int4::<Machine>(&wraps(&vals), out_dim, in_dim);
    let r = opens(&int4_to_f32::<Machine>(&p, &s, &b, out_dim, in_dim));
    for g in 0..(in_dim / GROUP_SIZE) {
        let base = g * GROUP_SIZE;
        let max_err = vals[base..base + GROUP_SIZE]
            .iter()
            .zip(r[base..base + GROUP_SIZE].iter())
            .map(|(a, b)| (a - b).abs())
            .fold(0.0f32, f32::max);
        let range = vals[base..base + GROUP_SIZE].iter().fold(f32::NEG_INFINITY, |a, &b| a.max(b))
            - vals[base..base + GROUP_SIZE].iter().fold(f32::INFINITY, |a, &b| a.min(b));
        if range > 0.001 {
            assert!(max_err / range < 0.1);
        }
    }
}

#[test]
fn test_int8_roundtrip() {
    let vals: Vec<f32> = (0..512).map(|i| ((i as f32) * 0.1).sin() * 3.0).collect();
    let (p, s) = quant_f32_to_int8::<Machine>(&wraps(&vals), 4, 128);
    let r = opens(&int8_to_f32::<Machine>(&p, &s, 4, 128));
    let range = vals.iter().fold(f32::NEG_INFINITY, |a, &v| a.max(v))
        - vals.iter().fold(f32::INFINITY, |a, &v| a.min(v));
    assert_eq!(r.len(), 512);
    for (a, b) in vals.iter().zip(r.iter()) {
        assert!((a - b).abs() / range.max(0.01) < 0.02, "err={}", (a - b).abs());
    }
}

#[test]
fn test_fp4_e2m1_roundtrip() {
    let out_dim = 2;
    let in_dim = 128;
    let vals: Vec<f32> =
        (0..(out_dim * in_dim)).map(|i| ((i as f32) * 0.13).sin() * 2.5).collect();
    let (p, s) = quant_f32_to_fp4_e2m1::<Machine>(&wraps(&vals), out_dim, in_dim);
    let r = opens(&fp4_e2m1_to_f32_full::<Machine>(&p, &s, out_dim, in_dim));
    let max_abs = vals.iter().fold(0.0f32, |a, &v| a.max(v.abs()));
    let mut max_err = 0.0f32;
    assert_eq!(r.len(), vals.len());
    for (a, b) in vals.iter().zip(r.iter()) {
        let err = (a - b).abs();
        if err > max_err {
            max_err = err;
        }
    }
    let rel = max_err / max_abs.max(0.001);
    assert!(rel < 0.5, "max relative error {} exceeds 0.5", rel);
}

#[test]
fn test_fp8_e4m3_roundtrip() {
    let out_dim = 2;
    let in_dim = 256;
    let vals: Vec<f32> =
        (0..(out_dim * in_dim)).map(|i| ((i as f32) * 0.07).sin() * 5.0).collect();
    let (p, s) = quant_f32_to_fp8_e4m3::<Machine>(&wraps(&vals), out_dim, in_dim);
    let r = opens(&fp8_e4m3_to_f32_full::<Machine>(&p, &s, out_dim, in_dim));
    let max_abs = vals.iter().fold(0.0f32, |a, &v| a.max(v.abs()));
    let mut max_err = 0.0f32;
    assert_eq!(r.len(), vals.len());
    for (a, b) in vals.iter().zip(r.iter()) {
        let err = (a - b).abs();
        if err > max_err {
            max_err = err;
        }
    }
    let rel = max_err / max_abs.max(0.001);
    assert!(rel < 0.10, "max relative error {} exceeds 10%", rel);
}

#[test]
fn test_bf16_roundtrip() {
    let vals: Vec<f32> = vec![0.0, 1.0, -1.0, 3.14159, 0.001, 1000.0];
    let bf = f32_to_bf16_u16(&wraps(&vals));
    let back: Vec<f32> = bf.iter().map(|&v| open(bf16_to_f32(v))).collect();
    assert_eq!(back.len(), vals.len());
    for (orig, &recon) in vals.iter().zip(back.iter()) {
        let rel = if *orig == 0.0 {
            (orig - recon).abs()
        } else {
            (orig - recon).abs() / orig.abs()
        };
        assert!(rel < 0.01);
    }
}

#[test]
fn dtype_names_round_trip() {
    let all = [
        DType::Fp32,
        DType::Bf16,
        DType::Int4,
        DType::Int8,
        DType::Fp4E2m1,
        DType::Fp8E4m3,
    ];
    for d in all {
        assert_eq!(string_to_dtype(d.as_str()), Some(d));
    }
    assert_eq!(DType::Int4.as_str(), "u32");
    assert_eq!(DType::Int8.as_str(), "u8");
    assert_eq!(string_to_dtype("f16"), None);
    assert_eq!(string_to_dtype(""), None);
    assert_eq!(string_to_dtype("F32"), None);
}

#[test]
fn numbers_are_ordered_as_the_machine_orders_them() {
    let xs = [
        f32::NEG_INFINITY,
        -3.5,
        -1.0e-40,
        -0.0,
        0.0,
        1.0e-45,
        0.5,
        1.0,
        7.25,
        f32::MAX,
        f32::INFINITY,
        f32::NAN,
    ];
    for a in xs {
        for b in xs {
            assert_eq!(wrap(a).less(wrap(b)), a < b);
            assert_eq!(wrap(a).same(wrap(b)), a == b);
            let (big, small) = (open(wrap(a).max(wrap(b))), open(wrap(a).min(wrap(b))));
            assert!(big == a.max(b) || (big.is_nan() && a.is_nan() && b.is_nan()));
            assert!(small == a.min(b) || (small.is_nan() && a.is_nan() && b.is_nan()));
        }
        assert_eq!(wrap(a).is_nan(), a.is_nan());
        assert_eq!(wrap(a).abs().bits, a.abs().to_bits());
        assert_eq!(wrap(a).neg().bits, (-a).to_bits());
    }
    assert_eq!(open(zero()), 0.0);
    assert_eq!(open(half()), 0.5);
    assert_eq!(open(one()), 1.0);
    assert_eq!(open(infinity()), f32::INFINITY);
    assert_eq!(open(neg_infinity()), f32::NEG_INFINITY);
}

#[test]
fn every_bf16_survives() {
    for v in 0..=u16::MAX {
        assert_eq!(f32_to_bf16_u16_single(bf16_to_f32(v)), v);
    }
    assert_eq!(open(bf16_to_f32(0x4049)), 3.140625);
    assert_eq!(f32_to_bf16_u16_single(wrap(3.14159)), 0x4049);
    assert_eq!(open(bf16_to_f32(0xC000)), -2.0);
}

#[test]
fn bf16_of_chosen_bits() {
    let short = |bits: u32| f32_to_bf16_u16_single(F32 { bits });
    assert_eq!(short(0x3F80_0000), 0x3F80);
    assert_eq!(short(0x3F80_7FFF), 0x3F80);
    // Half a step: up where the kept part is odd.
    assert_eq!(short(0x3F80_8000), 0x3F80);
    assert_eq!(short(0x3F81_8000), 0x3F82);
    // Above half a step the lowest bit decides, or the kept part.
    assert_eq!(short(0x3F80_8001), 0x3F81);
    assert_eq!(short(0x3F80_C000), 0x3F80);
    assert_eq!(short(0x3F81_C000), 0x3F82);
    assert_eq!(short(0xFFFF_FFFF), 0x0000);
    for i in 0..200_000u32 {
        let bits = i.wrapping_mul(2_654_435_761);
        let up = ((bits >> 15) & 1) & ((bits & 0x7FFF) | ((bits >> 16) & 1));
        assert_eq!(short(bits), (bits.wrapping_add(up << 16) >> 16) as u16);
    }
}

#[test]
fn nibbles_are_packed_from_the_lowest_bits() {
    let codes = [1u32, 2, 3, 4, 5, 6, 7, 15];
    let word = pack_nibbles(&codes);
    assert_eq!(word, 0xF765_4321);
    for n in 0..8 {
        assert_eq!(get_nibble(word, n), codes[n as usize]);
    }
}

#[test]
fn int4_of_a_ramp() {
    // 0, 1, ..., 63 twice over: step 63/15 = 4.2, bias 0, stored in bfloat16.
    let vals: Vec<f32> = (0..128).map(|i| (i % 64) as f32).collect();
    let (p, s, b) = quant_f32_to_int4::<Machine>(&wraps(&vals), 2, 64);
    assert_eq!(p.len(), 16);
    assert_eq!(s, vec![f32_to_bf16_u16_single(wrap(4.2)); 2]);
    assert_eq!(b, vec![0, 0]);
    // (i / 4.2) rounded: 0 0 0 1 1 1 1 2
    assert_eq!(p[0], 0x2111_1000);
    assert_eq!(p[7], 0xFFFE_EEED);
    let r = opens(&int4_to_f32::<Machine>(&p, &s, &b, 2, 64));
    let step = open(bf16_to_f32(s[0]));
    assert_eq!(r[0], 0.0);
    assert_eq!(r[7], 2.0 * step);
    assert_eq!(r[63], 15.0 * step);
    assert_eq!(r[64 + 63], 15.0 * step);
    let one_row = opens(&dequant_row::<Machine>(&p, &s, &b, 64, 64, 1));
    assert_eq!(one_row, r[64..].to_vec());
    assert_eq!(opens(&dequant_matrix::<Machine>(&p, &s, &b, 2, 64, 64)), r);
}

#[test]
fn int4_of_equal_numbers_and_of_a_part_group() {
    let vals = vec![2.0f32; 70];
    let (p, s, b) = quant_f32_to_int4::<Machine>(&wraps(&vals), 1, 70);
    let r = opens(&int4_to_f32::<Machine>(&p, &s, &b, 1, 70));
    assert_eq!(r.len(), 70);
    assert!(r[..64].iter().all(|&x| x == 2.0));
    assert!(r[64..].iter().all(|&x| x == 0.0));
}

#[test]
fn int8_of_chosen_numbers() {
    let vals = [127.0f32, -127.0, 1.0, 0.4, 0.6, 0.0, 0.0, 0.0, 0.0, 0.0];
    let (p, s) = quant_f32_to_int8::<Machine>(&wraps(&vals), 2, 5);
    assert_eq!(p, vec![127, -127, 1, 0, 1, 0, 0, 0, 0, 0]);
    assert_eq!(opens(&s), vec![1.0, 1.0 / 127.0]);
    let r = opens(&int8_to_f32::<Machine>(&p, &s, 2, 5));
    assert_eq!(r, vec![127.0, -127.0, 1.0, 0.0, 1.0, 0.0, 0.0, 0.0, 0.0, 0.0]);
    assert_eq!(open(largest_abs(&wraps(&[1.0, -7.0, f32::NAN, 3.0]))), 7.0);
    assert_eq!(open(largest_abs(&[])), 0.0);
}

#[test]
fn fp4_values() {
    let want = [0.0f32, 0.5, 1.0, 1.5, 2.0, 3.0, 4.0, 6.0];
    for n in 0..8u32 {
        assert_eq!(open(fp4_e2m1_to_f32(n)), want[n as usize]);
        assert_eq!(open(fp4_e2m1_to_f32(n + 8)), -want[n as usize]);
    }
    // Only the low four bits count.
    assert_eq!(open(fp4_e2m1_to_f32(0x17)), 6.0);
}

#[test]
fn fp4_codes_come_back() {
    let mut vals = vec![0.0f32; 64];
    let all = [6.0f32, -6.0, 4.0, 3.0, 2.0, 1.5, 1.0, 0.5, -4.0, -3.0, -2.0, -1.5, -1.0, -0.5];
    vals[..14].copy_from_slice(&all);
    let (p, s) = quant_f32_to_fp4_e2m1::<Machine>(&wraps(&vals), 1, 64);
    assert_eq!(s, vec![0x3F80]);
    assert_eq!(p[0], 0x1234_56F7);
    let r = opens(&fp4_e2m1_to_f32_full::<Machine>(&p, &s, 1, 64));
    assert_eq!(r, vals);
}

#[test]
fn fp4_passes_over_what_no_group_holds() {
    let mut vals = vec![1.5f32; 72];
    vals[70] = f32::NAN;
    vals[71] = f32::INFINITY;
    let (p, s) = quant_f32_to_fp4_e2m1::<Machine>(&wraps(&vals), 1, 72);
    assert_eq!(p[..8], [0x7777_7777u32; 8]);
    assert_eq!(s[0], 0x3E80);
    // The largest number that is finite has a code too.
    let (p, s) = quant_f32_to_fp4_e2m1::<Machine>(&wraps(&[f32::MAX; 64]), 1, 64);
    assert_eq!(p, vec![0x7777_7777u32; 8]);
    assert_eq!(s.len(), 1);
}

#[test]
fn fp8_values() {
    assert_eq!(open(fp8_e4m3_to_f32(0)), 0.0);
    assert_eq!(open(fp8_e4m3_to_f32(1)), 1.0 / 512.0);
    assert_eq!(open(fp8_e4m3_to_f32(0x38)), 1.0);
    assert_eq!(open(fp8_e4m3_to_f32(0x3C)), 1.5);
    assert_eq!(open(fp8_e4m3_to_f32(0x77)), 240.0);
    assert_eq!(open(fp8_e4m3_to_f32(0xB8)), -1.0);
    let lut = fp8_e4m3_lut();
    assert_eq!(lut.len(), 256);
    for b in 0..=255u8 {
        assert_eq!(lut[b as usize], fp8_e4m3_to_f32(b));
    }
}

#[test]
fn fp8_codes_come_back() {
    for b in 0..=255u8 {
        if b % 128 < 120 && b != 128 {
            assert_eq!(f32_to_fp8_e4m3(fp8_e4m3_to_f32(b)), b);
        }
    }
    assert_eq!(f32_to_fp8_e4m3(wrap(-0.0)), 0);
    assert_eq!(f32_to_fp8_e4m3(wrap(1.0e9)), 0x77);
    assert_eq!(f32_to_fp8_e4m3(wrap(-1.0e9)), 0xF7);
    // 1.0625 lies between 1.0 and 1.125: of two equally near, the lower.
    assert_eq!(f32_to_fp8_e4m3(wrap(1.0625)), 0x38);
    assert_eq!(f32_to_fp8_e4m3(wrap(1.07)), 0x39);
}

#[test]
fn fp8_of_a_group() {
    let mut vals = vec![0.0f32; 128];
    vals[0] = 240.0;
    vals[1] = -1.5;
    vals[2] = 0.01;
    let (p, s) = quant_f32_to_fp8_e4m3::<Machine>(&wraps(&vals), 1, 128);
    assert_eq!(s, vec![0x3F80]);
    assert_eq!(&p[..4], &[0x77, 0xBC, 0x05, 0x00]);
    let r = opens(&fp8_e4m3_to_f32_full::<Machine>(&p, &s, 1, 128));
    assert_eq!(&r[..4], &[240.0, -1.5, 5.0 / 512.0, 0.0]);
}

#[test]
fn bytes_round_trip() {
    let words = [0x0403_0201u32, 0xFFFF_FFFE];
    let b = u32s_to_bytes(&words);
    assert_eq!(b, vec![1, 2, 3, 4, 0xFE, 0xFF, 0xFF, 0xFF]);
    assert_eq!(bytes_to_u32s(&b, 0, 2), words.to_vec());
    assert_eq!(bytes_to_u32s(&b, 4, 1), vec![0xFFFF_FFFE]);
    let halves = [0x0201u16, 0xABCD];
    let b = u16s_to_bytes(&halves);
    assert_eq!(b, vec![1, 2, 0xCD, 0xAB]);
    assert_eq!(bytes_to_u16s(&b, 0, 2), halves.to_vec());
    assert_eq!(f32s_to_bytes(&[wrap(1.0)]), 1.0f32.to_le_bytes().to_vec());
    assert_eq!(i8s_to_bytes(&[-1, 2]), vec![255, 2]);
}

#[test]
fn encodings() {
    let vals: Vec<f32> = (0..128).map(|i| i as f32).collect();
    let x = wraps(&vals);

    let t = DType::Int4.encode::<Machine>(&x, 2, 64);
    assert_eq!(string_to_dtype(t[0].dtype), Some(DType::Int4));
    assert_eq!(t.len(), 3);
    let total: usize = t.iter().map(|e| e.data.len()).sum();
    assert_eq!(total, 2 * 36);
    assert_eq!((t[0].suffix, t[0].dtype), (".weight", "u32"));
    assert_eq!((t[1].suffix, t[1].dtype), (".scales", "bf16"));
    assert_eq!((t[2].suffix, t[2].dtype), (".biases", "bf16"));
    assert_eq!(t[0].shape, vec![2, 8]);
    assert_eq!(t[1].shape, vec![2, 1]);

    let t = DType::Int8.encode::<Machine>(&x, 2, 64);
    assert_eq!(string_to_dtype(t[0].dtype), Some(DType::Int8));
    assert_eq!(t.len(), 2);
    assert_eq!((t[0].suffix, t[0].dtype, t[0].data.len()), (".weight", "u8", 128));
    assert_eq!((t[1].suffix, t[1].dtype, t[1].data.len()), (".scales", "f32", 8));
    assert_eq!(t[0].shape, vec![2, 64]);
    assert_eq!(t[1].shape, vec![2]);

    let t = DType::Bf16.encode::<Machine>(&x, 2, 64);
    assert_eq!(string_to_dtype(t[0].dtype), Some(DType::Bf16));
    assert_eq!(t.len(), 1);
    assert_eq!((t[0].dtype, t[0].data.len()), ("bf16", 256));
    assert_eq!(&t[0].data[2..4], &[0x80, 0x3F]);

    let t = DType::Fp32.encode::<Machine>(&x, 2, 64);
    assert_eq!(string_to_dtype(t[0].dtype), Some(DType::Fp32));
    assert_eq!(t.len(), 1);
    assert_eq!((t[0].dtype, t[0].data.len()), ("f32", 512));
    assert_eq!(&t[0].data[4..8], &1.0f32.to_le_bytes());

    let t = DType::Fp4E2m1.encode::<Machine>(&x, 2, 64);
    assert_eq!(string_to_dtype(t[0].dtype), Some(DType::Fp4E2m1));
    assert_eq!((t.len(), t[0].dtype), (2, "fp4_e2m1"));
    let t = DType::Fp8E4m3.encode::<Machine>(&x, 1, 128);
    assert_eq!(string_to_dtype(t[0].dtype), Some(DType::Fp8E4m3));
    assert_eq!((t.len(), t[0].dtype, t[0].data.len()), (2, "fp8_e4m3", 128));
}

/// Numbers of very different sizes, both signs.
fn spread(n: usize, size: f32) -> Vec<f32> {
    (0..n)
        .map(|i| {
            let x = (i as f32 * 1.7).sin() * size;
            if i % 5 == 0 {
                x * 1e-3
            } else {
                x
            }
        })
        .collect()
}

#[test]
fn int8_error_within_half_a_step() {
    for size in [1e-29f32, 1e-3, 1.0, 777.0, 1e29] {
        let vals = spread(256, size);
        let (p, s) = quant_f32_to_int8::<Machine>(&wraps(&vals), 2, 128);
        let r = opens(&int8_to_f32::<Machine>(&p, &s, 2, 128));
        for row in 0..2 {
            let part = &vals[row * 128..(row + 1) * 128];
            let mx = part.iter().fold(0.0f32, |a, &v| a.max(v.abs()));
            assert_eq!(open(s[row]), mx / 127.0);
            for (j, &v) in part.iter().enumerate() {
                let k = row * 128 + j;
                let err = (r[k] as f64 - v as f64).abs();
                assert!(err <= 0.501 * open(s[row]) as f64);
                if v.abs() == mx {
                    assert_eq!(p[k].abs(), 127);
                }
            }
        }
    }
}

#[test]
fn int8_of_negated_numbers() {
    let mut vals = spread(192, 3.0);
    vals[0] = f32::INFINITY;
    for v in vals[128..].iter_mut() {
        *v = 0.0;
    }
    let negated: Vec<f32> = vals.iter().map(|v| -v).collect();
    let (p, s) = quant_f32_to_int8::<Machine>(&wraps(&vals), 3, 64);
    let (pn, sn) = quant_f32_to_int8::<Machine>(&wraps(&negated), 3, 64);
    assert_eq!(s, sn);
    for k in 0..192 {
        assert_eq!(pn[k], -p[k]);
        assert!(p[k] >= -127);
    }
    assert!(p[64..128].iter().any(|&c| c == 127 || c == -127));
    // A row of zeros.
    assert!(p[128..].iter().all(|&c| c == 0));
    assert_eq!(open(s[2]), 1.0 / 127.0);
}

#[test]
fn int4_error_within_half_a_step_and_bfloat16() {
    for (size, shift) in [(1.0f32, 0.0f32), (1e-18, 0.0), (1e28, 0.0), (0.01, 5.0), (2.0, -9.0)] {
        let vals: Vec<f32> = spread(256, size).iter().map(|v| v + shift).collect();
        let (p, s, b) = quant_f32_to_int4::<Machine>(&wraps(&vals), 2, 128);
        let r = opens(&int4_to_f32::<Machine>(&p, &s, &b, 2, 128));
        for (g, part) in vals.chunks(64).enumerate() {
            let m = part.iter().fold(f32::INFINITY, |a, &v| a.min(v)) as f64;
            let range = part.iter().fold(f32::NEG_INFINITY, |a, &v| a.max(v)) as f64 - m;
            for (j, &v) in part.iter().enumerate() {
                let err = (r[g * 64 + j] as f64 - v as f64).abs();
                assert!(err <= 0.51 * range / 15.0 + 1.01 * (range + m.abs()) / 128.0);
            }
        }
    }
}

#[test]
fn fp4_codes_are_nearest_with_sign() {
    for size in [1e-30f32, 1e-7, 1.0, 3.3e38] {
        let vals = spread(64, size);
        let (p, _) = quant_f32_to_fp4_e2m1::<Machine>(&wraps(&vals), 1, 64);
        let mx = vals.iter().fold(0.0f32, |a, &v| a.max(v.abs())).max(1e-8);
        for (j, &v) in vals.iter().enumerate() {
            let x = v * (1.0 / (mx / 6.0));
            let nib = get_nibble(p[j / 8], (j % 8) as u32);
            let d = open(fp4_e2m1_to_f32(nib));
            assert_eq!(nib & 8 != 0, v < 0.0);
            for c in 0..16 {
                let other = open(fp4_e2m1_to_f32(c));
                assert!((d - x).abs() <= (other - x).abs());
            }
        }
    }
}

#[test]
fn fp4_and_fp8_errors() {
    for size in [1e-7f32, 0.3, 2.5, 1e29] {
        let vals = spread(256, size);
        let (p, s) = quant_f32_to_fp4_e2m1::<Machine>(&wraps(&vals), 2, 128);
        let four = opens(&fp4_e2m1_to_f32_full::<Machine>(&p, &s, 2, 128));
        let (p, s) = quant_f32_to_fp8_e4m3::<Machine>(&wraps(&vals), 2, 128);
        let eight = opens(&fp8_e4m3_to_f32_full::<Machine>(&p, &s, 2, 128));
        for (r, group, most) in [(four, 64, 0.18f64), (eight, 128, 0.042)] {
            for (g, part) in vals.chunks(group).enumerate() {
                let mx = part.iter().fold(0.0f32, |a, &v| a.max(v.abs())) as f64;
                for (j, &v) in part.iter().enumerate() {
                    let back = r[g * group + j] as f64;
                    assert!((back - v as f64).abs() <= most * mx);
                    assert!(back * v as f64 >= 0.0);
                }
            }
        }
    }
}
