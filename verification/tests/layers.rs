//! Layers on small models, against the same arithmetic written out.

use ndarray::{Array1, Array2};

use moe_infer::attention::{full_attention, full_attention_forward, AttnDims, AttnStyle};
use moe_infer::bf16::{bf16_to_f32, f32_to_bf16_u16, f32_to_bf16_u16_single};
use moe_infer::bytes::{u16s_to_bytes, u32s_to_bytes};
use moe_infer::cache::{Cache, FullAttnCache, LinearAttnState};
use moe_infer::config::{is_full_attention, ExpertLayout, ModelConfig};
use moe_infer::constants::{compare_sizes, qwen35_35b, qwen35_35b_stripped, rms_norm_eps, MAX_SEQ};
use moe_infer::embed::{embed_lookup, final_norm_and_lm_head, lm_head_forward};
use moe_infer::error::MoEError;
use moe_infer::float::{Arith, F32};
use moe_infer::forward::forward;
use moe_infer::int4::{dequant_matrix, int4_to_f32, quant_f32_to_int4, GROUP_SIZE};
use moe_infer::linear::{
    convolve_token, cpu_conv1d_step, linear_attention_forward, linear_step, recurrence_on_device,
    LinDims,
};
use moe_infer::logits::{cpu_argmax, stats_f32};
use moe_infer::math::{
    cpu_normalize_weights, cpu_rms_norm, cpu_rms_norm_bare, cpu_rms_norm_gated, cpu_sigmoid,
    cpu_silu, cpu_softmax, sum, SumOrder,
};
use moe_infer::model::{
    attn_dims, forward_layer, lin_dims, linear_index, new_layer_states, reference_layer, LayerState,
};
use moe_infer::moe::{
    cpu_swiglu, expert_offset, moe_finish, moe_layer_forward, moe_projections, route, run_expert,
    sum_experts,
};
use moe_infer::ready::{embed_ready, head_ready, layer_ready, sizes_ready, token_ready};
use moe_infer::rope::apply_rotary_emb;
use moe_infer::topk::cpu_topk;
use moe_infer::weights::{
    apply_final_norm, cpu_dequant_matvec_4bit, get_matrix, input_norm, layer_name, post_norm,
    project, Tensor, TensorData, Weights,
};

/// The machine's own single-precision arithmetic.
struct Machine;

fn wrap(x: f32) -> F32 {
    F32 { bits: x.to_bits() }
}

fn open(x: F32) -> f32 {
    f32::from_bits(x.bits)
}

fn wraps(x: &[f32]) -> Vec<F32> {
    x.iter().map(|&v| wrap(v)).collect()
}

fn opens(x: &[F32]) -> Vec<f32> {
    x.iter().map(|&v| open(v)).collect()
}

impl Arith for Machine {
    fn add(a: F32, b: F32) -> F32 {
        wrap(open(a) + open(b))
    }

    fn sub(a: F32, b: F32) -> F32 {
        wrap(open(a) - open(b))
    }

    fn mul(a: F32, b: F32) -> F32 {
        wrap(open(a) * open(b))
    }

    fn div(a: F32, b: F32) -> F32 {
        wrap(open(a) / open(b))
    }

    fn sqrt(a: F32) -> F32 {
        wrap(open(a).sqrt())
    }

    fn exp(a: F32) -> F32 {
        wrap(open(a).exp())
    }

    fn ln(a: F32) -> F32 {
        wrap(open(a).ln())
    }

    fn round(a: F32) -> F32 {
        wrap(open(a).round())
    }

    fn to_i32(a: F32) -> i32 {
        open(a) as i32
    }

    fn from_int(n: i64) -> F32 {
        wrap(n as f32)
    }

    fn sum(s: &[F32]) -> F32 {
        wrap(s.iter().map(|&v| open(v)).sum())
    }

    fn dot(a: &[F32], b: &[F32]) -> F32 {
        wrap(a.iter().zip(b.iter()).map(|(&x, &y)| open(x) * open(y)).sum())
    }

    fn rotary(pos: usize, d: usize, rotary_dim: usize, theta: u64) -> (F32, F32) {
        let base = f64::from_bits(theta);
        let angle = pos as f32 as f64 * base.powf(-2.0 * (d as f64) / rotary_dim as f64);
        (wrap(angle.cos() as f32), wrap(angle.sin() as f32))
    }
}

/// The same arithmetic, but sums and products of vectors as `ndarray` forms them.
struct Arrays;

impl Arith for Arrays {
    fn add(a: F32, b: F32) -> F32 {
        Machine::add(a, b)
    }

    fn sub(a: F32, b: F32) -> F32 {
        Machine::sub(a, b)
    }

    fn mul(a: F32, b: F32) -> F32 {
        Machine::mul(a, b)
    }

    fn div(a: F32, b: F32) -> F32 {
        Machine::div(a, b)
    }

    fn sqrt(a: F32) -> F32 {
        Machine::sqrt(a)
    }

    fn exp(a: F32) -> F32 {
        Machine::exp(a)
    }

    fn ln(a: F32) -> F32 {
        Machine::ln(a)
    }

    fn round(a: F32) -> F32 {
        Machine::round(a)
    }

    fn to_i32(a: F32) -> i32 {
        Machine::to_i32(a)
    }

    fn from_int(n: i64) -> F32 {
        Machine::from_int(n)
    }

    fn sum(s: &[F32]) -> F32 {
        wrap(Array1::from(opens(s)).sum())
    }

    fn dot(a: &[F32], b: &[F32]) -> F32 {
        wrap(Array1::from(opens(a)).dot(&Array1::from(opens(b))))
    }

    fn rotary(pos: usize, d: usize, rotary_dim: usize, theta: u64) -> (F32, F32) {
        Machine::rotary(pos, d, rotary_dim, theta)
    }
}

/// Numbers between -1 and 1 that look random.
struct Noise {
    state: u64,
}

impl Noise {
    fn next(&mut self) -> f32 {
        self.state = self.state.wrapping_mul(6364136223846793005).wrapping_add(1442695040888963407);
        ((self.state >> 40) as f32) / 8388608.0 - 1.0
    }

    fn many(&mut self, n: usize) -> Vec<f32> {
        (0..n).map(|_| self.next()).collect()
    }
}

enum Owned {
    U32(Vec<u32>),
    U16(Vec<u16>),
    F32(Vec<F32>),
}

/// Tensors that own their numbers.
struct Store {
    tensors: Vec<(String, Vec<usize>, Owned)>,
}

impl Store {
    fn new() -> Store {
        Store { tensors: Vec::new() }
    }

    /// A matrix in four-bit integers; what it holds after that.
    fn matrix(&mut self, name: &str, rows: usize, cols: usize, noise: &mut Noise) -> Vec<f32> {
        let vals = noise.many(rows * cols);
        let (w, s, b) = quant_f32_to_int4::<Machine>(&wraps(&vals), rows, cols);
        let back = opens(&int4_to_f32::<Machine>(&w, &s, &b, rows, cols));
        self.tensors.push((format!("{}.weight", name), vec![rows, cols / 8], Owned::U32(w)));
        self.tensors.push((format!("{}.scales", name), vec![rows, cols / 64], Owned::U16(s)));
        self.tensors.push((format!("{}.biases", name), vec![rows, cols / 64], Owned::U16(b)));
        back
    }

    /// A vector in bfloat16; what it holds after that.
    fn vector(&mut self, name: &str, n: usize, noise: &mut Noise) -> Vec<f32> {
        let bits = f32_to_bf16_u16(&wraps(&noise.many(n)));
        let back = bits.iter().map(|&v| open(bf16_to_f32(v))).collect();
        self.tensors.push((name.to_string(), vec![n], Owned::U16(bits)));
        back
    }

    fn plain(&mut self, name: &str, n: usize, noise: &mut Noise) -> Vec<f32> {
        let vals = noise.many(n);
        self.tensors.push((name.to_string(), vec![n], Owned::F32(wraps(&vals))));
        vals
    }

    fn weights(&self) -> Weights<'_> {
        let tensors = self
            .tensors
            .iter()
            .map(|(name, shape, data)| Tensor {
                name: name.clone(),
                shape: shape.clone(),
                data: match data {
                    Owned::U32(v) => TensorData::U32(v),
                    Owned::U16(v) => TensorData::U16(v),
                    Owned::F32(v) => TensorData::F32(v),
                },
            })
            .collect();
        Weights { tensors }
    }
}

fn dot(a: &[f32], b: &[f32]) -> f32 {
    a.iter().zip(b.iter()).map(|(&x, &y)| x * y).sum()
}

fn times(m: &[f32], x: &[f32], rows: usize) -> Vec<f32> {
    let cols = x.len();
    (0..rows).map(|r| dot(&m[r * cols..(r + 1) * cols], x)).collect()
}

/// The largest difference between two lists.
fn widest(a: &[f32], b: &[f32]) -> f32 {
    a.iter().zip(b.iter()).map(|(x, y)| (x - y).abs()).fold(0.0f32, f32::max)
}

fn eps() -> f32 {
    1e-6
}

fn plain_norm(x: &[f32], w: &[f32]) -> Vec<f32> {
    let ssq: f32 = x.iter().map(|v| v * v).sum();
    let inv = 1.0 / (ssq / x.len() as f32 + eps()).sqrt();
    x.iter().zip(w.iter()).map(|(v, w)| v * inv * w).collect()
}

fn plain_silu(x: f32) -> f32 {
    x / (1.0 + (-x).exp())
}

fn small() -> ModelConfig {
    let parts = [(64, 64), (64, 64), (64, 64)];
    let mut at = 0;
    let mut off = Vec::new();
    for (rows, cols) in parts {
        for size in [rows * cols / 2, rows * (cols / 64) * 2, rows * (cols / 64) * 2] {
            off.push((at, size));
            at += size;
        }
    }
    ModelConfig {
        hidden_dim: 64,
        num_layers: 4,
        vocab_size: 10,
        num_attn_heads: 4,
        num_kv_heads: 2,
        head_dim: 16,
        rotary_dim: 8,
        rope_theta: 10000.0f64.to_bits(),
        num_experts: 5,
        num_experts_per_tok: 2,
        moe_intermediate: 64,
        shared_intermediate: 64,
        linear_num_k_heads: 2,
        linear_num_v_heads: 4,
        linear_total_key: 16,
        linear_total_value: 64,
        linear_conv_dim: 96,
        expert_size_4bit: at,
        expert_layout_4bit: ExpertLayout {
            gate_w_off: off[0].0,
            gate_w_size: off[0].1,
            gate_s_off: off[1].0,
            gate_s_size: off[1].1,
            gate_b_off: off[2].0,
            gate_b_size: off[2].1,
            up_w_off: off[3].0,
            up_w_size: off[3].1,
            up_s_off: off[4].0,
            up_s_size: off[4].1,
            up_b_off: off[5].0,
            up_b_size: off[5].1,
            down_w_off: off[6].0,
            down_w_size: off[6].1,
            down_s_off: off[7].0,
            down_s_size: off[7].1,
            down_b_off: off[8].0,
            down_b_size: off[8].1,
        },
    }
}

/// The bytes of an expert and what its three matrices hold.
fn expert(noise: &mut Noise) -> (Vec<u8>, Vec<Vec<f32>>) {
    let mut bytes = Vec::new();
    let mut mats = Vec::new();
    for _ in 0..3 {
        let vals = noise.many(64 * 64);
        let (w, s, b) = quant_f32_to_int4::<Machine>(&wraps(&vals), 64, 64);
        mats.push(opens(&int4_to_f32::<Machine>(&w, &s, &b, 64, 64)));
        bytes.extend(u32s_to_bytes(&w));
        bytes.extend(u16s_to_bytes(&s));
        bytes.extend(u16s_to_bytes(&b));
    }
    (bytes, mats)
}

fn plain_expert(mats: &[Vec<f32>], x: &[f32]) -> Vec<f32> {
    let g = times(&mats[0], x, 64);
    let u = times(&mats[1], x, 64);
    let act: Vec<f32> = g.iter().zip(u.iter()).map(|(&g, &u)| plain_silu(g) * u).collect();
    times(&mats[2], &act, 64)
}

#[test]
fn test_rms_norm_consistency() {
    let hd = 2048;
    let x: Vec<f32> = (0..hd).map(|i| (i as f32).sin()).collect();
    let w: Vec<f32> = (0..hd).map(|i| ((i as f32) * 0.5).cos() + 1.0).collect();
    let w_bits = f32_to_bf16_u16(&wraps(&w));
    let w: Vec<f32> = w_bits.iter().map(|&v| open(bf16_to_f32(v))).collect();

    let old_out = plain_norm(&x, &w);
    for order in [SumOrder::LeftToRight, SumOrder::Supplied] {
        let new_out = opens(&cpu_rms_norm::<Arrays>(&wraps(&x), &w_bits, rms_norm_eps(), order));
        assert_eq!(new_out.len(), hd);
        let max_diff = widest(&old_out, &new_out);
        println!("rms_norm max_diff: {:e}", max_diff);
        assert!(max_diff < 1e-5, "rms_norm mismatch: max_diff={}", max_diff);
    }
}

#[test]
fn small_constants() {
    assert_eq!(open(rms_norm_eps()), 1e-6);
    assert_eq!(f64::from_bits(qwen35_35b::ROPE_THETA), 10_000_000.0);
    assert_eq!(qwen35_35b::EXPERT_SIZE_4BIT, 1769472);
    assert_eq!(qwen35_35b_stripped::EXPERT_SIZE_4BIT, 1769472);
    assert_eq!(qwen35_35b::DOWN_B_OFF + qwen35_35b::DOWN_B_SIZE, qwen35_35b::EXPERT_SIZE_4BIT);
    assert_eq!(qwen35_35b::LINEAR_CONV_DIM, 8192);
    assert_eq!(qwen35_35b::NUM_LINEAR_LAYERS, 30);
}

#[test]
fn configurations_are_compared() {
    let ok = qwen35_35b::validate_config(
        2048, 40, 256, 8, 512, 512, 16, 2, 256, 248320, 32, 16, 2048, 4096,
    );
    assert!(ok.is_ok());
    let bad = qwen35_35b::validate_config(
        2048, 4, 256, 8, 512, 512, 16, 2, 256, 248320, 32, 16, 2048, 4097,
    );
    let said = bad.err().unwrap();
    assert!(said.contains("num_layers: config=4, const=40"));
    assert!(said.contains("linear_total_value: config=4097, const=4096"));
    assert!(!said.contains("hidden_dim"));
    let small = qwen35_35b_stripped::validate_config(
        2048, 4, 4, 4, 512, 512, 16, 2, 256, 248320, 32, 16, 2048, 4096,
    );
    assert!(small.is_ok());
    let same = vec![1usize; 14];
    assert!(compare_sizes(&same, &same).is_ok());
}

#[test]
fn activations() {
    assert_eq!(open(cpu_sigmoid::<Machine>(wrap(0.0))), 0.5);
    assert_eq!(open(cpu_sigmoid::<Machine>(wrap(2.0))), 1.0 / (1.0 + (-2.0f32).exp()));
    assert_eq!(opens(&cpu_silu::<Machine>(&wraps(&[0.0, 1.5]))), vec![0.0, plain_silu(1.5)]);
    let s = opens(&cpu_softmax::<Machine>(&wraps(&[0.0, 0.0, 0.0, 0.0]), SumOrder::LeftToRight));
    assert_eq!(s, vec![0.25; 4]);
    let s = opens(&cpu_softmax::<Machine>(&wraps(&[1000.0, 0.0]), SumOrder::Supplied));
    assert_eq!(s, vec![1.0, 0.0]);
    let n = opens(&cpu_normalize_weights::<Machine>(wraps(&[1.0, 3.0])));
    assert_eq!(n, vec![0.25, 0.75]);
    let z = opens(&cpu_normalize_weights::<Machine>(wraps(&[0.0, 0.0])));
    assert_eq!(z, vec![0.0, 0.0]);
    let g = opens(&cpu_swiglu::<Machine>(&wraps(&[1.0, 2.0]), &wraps(&[3.0, 0.5])));
    assert_eq!(g, vec![plain_silu(1.0) * 3.0, plain_silu(2.0) * 0.5]);
}

#[test]
fn norms() {
    let x = [3.0f32, 4.0];
    let order = SumOrder::LeftToRight;
    let bare = opens(&cpu_rms_norm_bare::<Machine>(&wraps(&x), rms_norm_eps(), order));
    let inv = 1.0 / (25.0f32 / 2.0 + 1e-6).sqrt();
    assert_eq!(bare, vec![3.0 * inv, 4.0 * inv]);
    let w = [f32_to_bf16_u16_single(wrap(2.0)), f32_to_bf16_u16_single(wrap(-1.0))];
    let z = [1.0f32, -2.0];
    let gated =
        opens(&cpu_rms_norm_gated::<Machine>(&wraps(&x), &wraps(&z), &w, rms_norm_eps()));
    assert_eq!(
        gated,
        vec![3.0 * inv * 2.0 * plain_silu(1.0), 4.0 * inv * -1.0 * plain_silu(-2.0)]
    );
}

#[test]
fn best_scores() {
    let scores = [0.1f32, 0.9, 0.3, 0.8, 0.2, 0.7];
    let mut idx = vec![0usize; 3];
    let mut val = wraps(&[0.0; 3]);
    cpu_topk(&wraps(&scores), 3, &mut idx, &mut val);
    let val = opens(&val);
    for (i, v) in idx.iter().zip(val.iter()) {
        assert_eq!(scores[*i], *v);
    }
    let mut sorted = idx.clone();
    sorted.sort();
    assert_eq!(sorted, vec![1, 3, 5]);
    // The smallest of the chosen stands first.
    assert_eq!((idx[0], val[0]), (5, 0.7));

    let mut idx = vec![0usize; 4];
    let mut val = wraps(&[0.0; 4]);
    cpu_topk(&wraps(&[0.5, 0.25]), 4, &mut idx, &mut val);
    assert_eq!(&idx[..2], &[1, 0]);
    assert_eq!(&opens(&val)[..2], &[0.25, 0.5]);
}

#[test]
fn routing_of_scores() {
    let (idx, w) = route::<Machine>(&wraps(&[0.0, 3.0, 1.0, 3.0]), 2, SumOrder::LeftToRight);
    let mut sorted = idx.clone();
    sorted.sort();
    assert_eq!(sorted, vec![1, 3]);
    assert_eq!(opens(&w), vec![0.5, 0.5]);
}

#[test]
fn best_token() {
    assert_eq!(cpu_argmax(&wraps(&[1.0, 5.0, 2.0])), 1);
    // Of equal logits the last one.
    assert_eq!(cpu_argmax(&wraps(&[5.0, 5.0, 2.0, 5.0])), 3);
    assert_eq!(cpu_argmax(&[]), 0);
    assert_eq!(cpu_argmax(&wraps(&[f32::NAN])), 0);
    assert_eq!(cpu_argmax(&wraps(&[f32::NEG_INFINITY, -1.0])), 1);
}

#[test]
fn statistics() {
    let (min, max, mean, std, has_nan) = stats_f32::<Machine>(&wraps(&[1.0, 2.0, 3.0, f32::NAN]));
    assert_eq!((open(min), open(max), open(mean), has_nan), (1.0, 3.0, 1.5, true));
    assert_eq!(open(std), (14.0f32 / 4.0 - 2.25).sqrt());
    let e = stats_f32::<Machine>(&[]);
    assert_eq!((e.0.bits, e.1.bits, e.2.bits, e.3.bits, e.4), (0, 0, 0, 0, false));
}

#[test]
fn rotary_pairs() {
    let x: Vec<f32> = (0..8).map(|i| i as f32 + 1.0).collect();
    let theta = 100.0f64;
    let r = opens(&apply_rotary_emb::<Machine>(&wraps(&x), 3, 2, 4, 3, theta.to_bits()));
    for h in 0..2 {
        for d in [0usize, 2] {
            let angle = 3.0f32 as f64 * theta.powf(-2.0 * (d as f64) / 3.0);
            let (cos, sin) = (angle.cos() as f32, angle.sin() as f32);
            let (a, b) = (x[4 * h + d], x[4 * h + d + 1]);
            assert_eq!(r[4 * h + d], a * cos - b * sin);
            assert_eq!(r[4 * h + d + 1], a * sin + b * cos);
        }
    }
    // At position zero nothing turns.
    let r = opens(&apply_rotary_emb::<Machine>(&wraps(&x), 0, 2, 4, 4, theta.to_bits()));
    assert_eq!(r, x);
}

#[test]
fn layers_take_turns() {
    let full: Vec<usize> = (0..12).filter(|&l| is_full_attention(l)).collect();
    assert_eq!(full, vec![3, 7, 11]);
    let linear: Vec<usize> =
        (0..12).filter(|&l| !is_full_attention(l)).map(linear_index).collect();
    assert_eq!(linear, (0..9).collect::<Vec<usize>>());
}

#[test]
fn names_of_layers() {
    assert_eq!(layer_name(12, ".mlp.gate"), "model.layers.12.mlp.gate");
    assert_ne!(layer_name(1, ".a"), layer_name(11, ".a"));
}

#[test]
fn caches() {
    let c = small();
    let mut cache = Cache::new(&c);
    assert_eq!((cache.pos, cache.kv.len(), cache.lin.len()), (0, 4, 4));
    for l in 0..4 {
        assert_eq!(cache.kv[l].is_some(), l == 3);
        assert_eq!(cache.lin[l].is_some(), l != 3);
    }
    assert_eq!(cache.kv[3].as_ref().unwrap().k_cache.len(), MAX_SEQ * 32);
    assert_eq!(cache.lin[0].as_ref().unwrap().conv_state.len(), 3 * 96);
    assert_eq!(cache.lin[0].as_ref().unwrap().ssm_state.len(), 4 * 16 * 8);
    cache.pos = 5;
    cache.kv[3].as_mut().unwrap().len = 5;
    cache.kv[3].as_mut().unwrap().k_cache[0] = wrap(1.0);
    cache.lin[1].as_mut().unwrap().conv_state[7] = wrap(1.0);
    cache.lin[1].as_mut().unwrap().ssm_state[7] = wrap(1.0);
    cache.reset();
    assert_eq!(cache.pos, 0);
    assert_eq!(cache.kv[3].as_ref().unwrap().len, 0);
    // What the room of an attention cache held stays.
    assert_eq!(open(cache.kv[3].as_ref().unwrap().k_cache[0]), 1.0);
    assert!(cache.lin[1].as_ref().unwrap().conv_state.iter().all(|x| x.bits == 0));
    assert!(cache.lin[1].as_ref().unwrap().ssm_state.iter().all(|x| x.bits == 0));
}

#[test]
fn embeddings() {
    let mut noise = Noise { state: 1 };
    let mut store = Store::new();
    let table = store.matrix("model.embed_tokens", 6, 128, &mut noise);
    let ws = store.weights();
    for token in 0..6 {
        let mut out = wraps(&vec![7.0; 128]);
        embed_lookup::<Machine>(&ws, token, &mut out);
        assert_eq!(opens(&out), table[token * 128..(token + 1) * 128].to_vec());
    }
    let none = Weights { tensors: Vec::new() };
    let mut out = wraps(&[1.0, 2.0]);
    embed_lookup::<Machine>(&none, 3, &mut out);
    assert_eq!(opens(&out), vec![0.0, 0.0]);
}

#[test]
fn test_embed_consistency() {
    let mut noise = Noise { state: 31 };
    let (hd, vocab, token_id) = (256usize, 40usize, 37usize);
    let mut store = Store::new();
    store.matrix("model.embed_tokens", vocab, hd, &mut noise);
    let ws = store.weights();
    let w = ws.get_tensor_u32("model.embed_tokens.weight").unwrap();
    let s = ws.get_tensor_u16("model.embed_tokens.scales").unwrap();
    let b = ws.get_tensor_u16("model.embed_tokens.biases").unwrap();
    let (packed_cols, num_groups) = (hd / 8, hd / 64);
    let group_size = hd / num_groups;
    let mut old_out = vec![0.0f32; hd];
    for g in 0..num_groups {
        let scale = open(bf16_to_f32(s[token_id * num_groups + g]));
        let bias = open(bf16_to_f32(b[token_id * num_groups + g]));
        for p in 0..group_size / 8 {
            let packed = w[token_id * packed_cols + g * (group_size / 8) + p];
            for n in 0..8 {
                let nibble = (packed >> (n * 4)) & 0xF;
                old_out[g * group_size + p * 8 + n] = (nibble as f32) * scale + bias;
            }
        }
    }
    let mut out = wraps(&vec![0.0; hd]);
    embed_lookup::<Machine>(&ws, token_id, &mut out);
    let max_diff = widest(&old_out, &opens(&out));
    assert!(max_diff < 1e-6, "embed mismatch: max_diff={}", max_diff);
}

/// A matrix of four-bit integers, decoded as a whole.
fn decoded(ws: &Weights, name: &str, rows: usize, cols: usize) -> Array2<f32> {
    let w = ws.get_tensor_u32(&format!("{}.weight", name)).unwrap();
    let s = ws.get_tensor_u16(&format!("{}.scales", name)).unwrap();
    let b = ws.get_tensor_u16(&format!("{}.biases", name)).unwrap();
    let table = dequant_matrix::<Machine>(w, s, b, rows, cols, GROUP_SIZE);
    Array2::from_shape_vec((rows, cols), opens(&table)).unwrap()
}

#[test]
fn test_dequant_matvec_consistency() {
    let mut noise = Noise { state: 32 };
    let (hd, n_experts) = (256usize, 24usize);
    let mut store = Store::new();
    let table = store.matrix("model.embed_tokens", 8, hd, &mut noise);
    store.matrix("model.layers.0.mlp.gate", n_experts, hd, &mut noise);
    let ws = store.weights();
    let mut test_vec = wraps(&vec![0.0; hd]);
    embed_lookup::<Machine>(&ws, 5, &mut test_vec);
    assert_eq!(opens(&test_vec), table[5 * hd..6 * hd].to_vec());
    let m = get_matrix(&ws, "model.layers.0.mlp.gate").unwrap();
    let old_out = cpu_dequant_matvec_4bit::<Machine>(&m, &test_vec, n_experts);
    let new_mat = decoded(&ws, "model.layers.0.mlp.gate", n_experts, hd);
    let new_out = new_mat.dot(&Array1::from(opens(&test_vec)));
    let max_diff = widest(&opens(&old_out), &new_out.to_vec());
    assert!(max_diff < 1e-5, "dequant_matvec mismatch: max_diff={}", max_diff);
}

#[test]
fn test_full_attention_qkv() {
    let mut noise = Noise { state: 33 };
    let am = attn_model(3, &mut noise);
    let ws = am.store.weights();
    let (hd, q_proj_dim) = (64usize, 128usize);
    let normed = vec![1.0f32; hd];
    let name = layer_name(3, ".self_attn.q_proj");
    let new_q_proj =
        decoded(&ws, &name, q_proj_dim, hd).dot(&Array1::from(normed.clone())).to_vec();
    let m = get_matrix(&ws, &name).unwrap();
    let old_q_proj = cpu_dequant_matvec_4bit::<Machine>(&m, &wraps(&normed), q_proj_dim);
    let max_diff = widest(&opens(&old_q_proj), &new_q_proj);
    assert!(max_diff < 1e-5, "Q proj mismatch: max_diff={}", max_diff);
    assert_eq!(project::<Machine>(&ws, &name, &wraps(&normed), q_proj_dim), old_q_proj);
    // Without the matrix there are zeros.
    let none = Weights { tensors: Vec::new() };
    let zeros = project::<Machine>(&none, &name, &wraps(&normed), q_proj_dim);
    assert_eq!(opens(&zeros), vec![0.0; q_proj_dim]);
}

#[test]
fn heads_and_final_norm() {
    let mut noise = Noise { state: 2 };
    let mut store = Store::new();
    let head = store.matrix("lm_head", 10, 64, &mut noise);
    let norm = store.vector("model.norm.weight", 64, &mut noise);
    let ws = store.weights();
    let x = noise.many(64);
    let normed = plain_norm(&x, &norm);
    assert_eq!(opens(&apply_final_norm::<Machine>(&ws, &wraps(&x))), normed);
    let logits = lm_head_forward::<Machine>(&ws, &wraps(&normed), wraps(&[0.0; 10]));
    assert_eq!(opens(&logits), times(&head, &normed, 10));

    let mut hidden = wraps(&x);
    let logits = opens(&final_norm_and_lm_head::<Machine>(&ws, &mut hidden, 10));
    let ssq: f32 = x.iter().map(|v| v * v).sum();
    let inv = 1.0 / (ssq / 64.0 + eps()).sqrt();
    let other: Vec<f32> = x.iter().zip(norm.iter()).map(|(v, w)| v * (inv * w)).collect();
    assert_eq!(opens(&hidden), other);
    assert_eq!(logits, times(&head, &other, 10));

    let none = Weights { tensors: Vec::new() };
    let first = opens(&lm_head_forward::<Machine>(&none, &wraps(&x), wraps(&[0.0; 3])));
    assert_eq!(first, vec![1.0, 0.0, 0.0]);
    assert_eq!(opens(&apply_final_norm::<Machine>(&none, &wraps(&x))), x);
    let mut hidden = wraps(&x);
    let zeros = opens(&final_norm_and_lm_head::<Machine>(&none, &mut hidden, 3));
    assert_eq!(zeros, vec![0.0; 3]);
}

#[test]
fn convolution_step() {
    // Two channels, four inputs each; weights of a channel lie side by side.
    let state = [1.0f32, 10.0, 2.0, 20.0, 3.0, 30.0];
    let w: Vec<u16> = [1.0f32, 0.5, 0.25, 2.0, 1.0, 1.0, 1.0, 1.0]
        .iter()
        .map(|&v| f32_to_bf16_u16_single(wrap(v)))
        .collect();
    let r = opens(&cpu_conv1d_step::<Machine>(&wraps(&state), &wraps(&[4.0, 40.0]), &w, 4));
    assert_eq!(r, vec![plain_silu(1.0 + 1.0 + 0.75 + 8.0), plain_silu(100.0)]);
}

struct LinearModel {
    store: Store,
    qkv: Vec<f32>,
    z: Vec<f32>,
    b: Vec<f32>,
    a: Vec<f32>,
    out: Vec<f32>,
    conv: Vec<f32>,
    a_log: Vec<f32>,
    dt: Vec<f32>,
    norm: Vec<f32>,
    input: Vec<f32>,
}

fn linear_model(layer: usize, noise: &mut Noise) -> LinearModel {
    let p = format!("model.layers.{}.linear_attn", layer);
    let mut store = Store::new();
    let qkv = store.matrix(&format!("{}.in_proj_qkv", p), 96, 64, noise);
    let z = store.matrix(&format!("{}.in_proj_z", p), 64, 64, noise);
    let b = store.matrix(&format!("{}.in_proj_b", p), 4, 64, noise);
    let a = store.matrix(&format!("{}.in_proj_a", p), 4, 64, noise);
    let out = store.matrix(&format!("{}.out_proj", p), 64, 64, noise);
    let conv = store.vector(&format!("{}.conv1d.weight", p), 96 * 4, noise);
    let a_log = store.plain(&format!("{}.A_log", p), 4, noise);
    let dt = store.vector(&format!("{}.dt_bias", p), 4, noise);
    let norm = store.vector(&format!("{}.norm.weight", p), 16, noise);
    let input =
        store.vector(&format!("model.layers.{}.input_layernorm.weight", layer), 64, noise);
    LinearModel { store, qkv, z, b, a, out, conv, a_log, dt, norm, input }
}

/// Linear attention written out: four value heads of 16, two key heads of 8.
fn plain_linear(m: &LinearModel, hidden: &[f32], conv: &mut Vec<f32>, ssm: &mut [f32]) -> Vec<f32> {
    let normed = plain_norm(hidden, &m.input);
    let qkv = times(&m.qkv, &normed, 96);
    let z = times(&m.z, &normed, 64);
    let beta = times(&m.b, &normed, 4);
    let alpha = times(&m.a, &normed, 4);
    let mut mixed = vec![0.0f32; 96];
    for c in 0..96 {
        let mut acc = 0.0f32;
        for k in 0..3 {
            acc += conv[k * 96 + c] * m.conv[c * 4 + k];
        }
        acc += qkv[c] * m.conv[c * 4 + 3];
        mixed[c] = plain_silu(acc);
    }
    conv.drain(..96);
    conv.extend_from_slice(&qkv);
    let inv_scale = 1.0 / (8.0f32).sqrt();
    let mut q = vec![0.0f32; 16];
    let mut k = vec![0.0f32; 16];
    for h in 0..2 {
        for (src, dst, c) in
            [(0, &mut q, inv_scale * inv_scale), (16, &mut k, inv_scale)]
        {
            let x = &mixed[src + h * 8..src + h * 8 + 8];
            let ssq: f32 = x.iter().map(|v| v * v).sum();
            let inv = 1.0 / (ssq / 8.0 + eps()).sqrt();
            for i in 0..8 {
                dst[h * 8 + i] = x[i] * inv * c;
            }
        }
    }
    let mut gated = vec![0.0f32; 64];
    for vh in 0..4 {
        let kh = vh / 2;
        let sp = (1.0 + (alpha[vh] + m.dt[vh]).exp()).ln();
        let decay = (-m.a_log[vh].exp() * sp).exp();
        let rate = 1.0 / (1.0 + (-beta[vh]).exp());
        let s = &mut ssm[vh * 128..(vh + 1) * 128];
        let mut o = vec![0.0f32; 16];
        for v in s.iter_mut() {
            *v *= decay;
        }
        for vi in 0..16 {
            let mut mem = 0.0f32;
            for ki in 0..8 {
                mem += s[vi * 8 + ki] * k[kh * 8 + ki];
            }
            let delta = (mixed[32 + vh * 16 + vi] - mem) * rate;
            for ki in 0..8 {
                s[vi * 8 + ki] += k[kh * 8 + ki] * delta;
            }
        }
        for vi in 0..16 {
            let mut sum = 0.0f32;
            for ki in 0..8 {
                sum += s[vi * 8 + ki] * q[kh * 8 + ki];
            }
            o[vi] = sum;
        }
        let ssq: f32 = o.iter().map(|v| v * v).sum();
        let inv = 1.0 / (ssq / 16.0 + eps()).sqrt();
        for vi in 0..16 {
            gated[vh * 16 + vi] = o[vi] * inv * m.norm[vi] * plain_silu(z[vh * 16 + vi]);
        }
    }
    let out = times(&m.out, &gated, 64);
    hidden.iter().zip(out.iter()).map(|(a, b)| a + b).collect()
}

#[test]
fn linear_attention_over_tokens() {
    let mut noise = Noise { state: 3 };
    let m = linear_model(2, &mut noise);
    let ws = m.store.weights();
    let d = lin_dims(&small());
    let mut state = LinearAttnState::new(4, 8, 16, 96);
    let mut conv = vec![0.0f32; 3 * 96];
    let mut ssm = vec![0.0f32; 4 * 16 * 8];
    for _ in 0..5 {
        let x = noise.many(64);
        let want = plain_linear(&m, &x, &mut conv, &mut ssm);
        let mut hidden = wraps(&x);
        linear_attention_forward::<Machine>(&ws, 2, &mut hidden, &mut state, &d);
        assert_eq!(opens(&hidden), want);
        assert_eq!(opens(&state.conv_state), conv);
        assert_eq!(opens(&state.ssm_state), ssm);
    }
}

#[test]
fn linear_attention_without_tensors() {
    let none = Weights { tensors: Vec::new() };
    let d = LinDims { num_k_heads: 1, num_v_heads: 1, total_key: 2, total_value: 2, qkv_dim: 6 };
    let mut state = LinearAttnState::new(1, 2, 2, 6);
    let mut hidden = wraps(&[1.0, -2.0]);
    linear_attention_forward::<Machine>(&none, 0, &mut hidden, &mut state, &d);
    assert_eq!(opens(&hidden), vec![1.0, -2.0]);

    // Given projections, without convolution, norm, decay rates and offsets.
    let mut state = LinearAttnState::new(1, 2, 2, 6);
    let qkv = wraps(&[1.0, 1.0, 1.0, 1.0, 4.0, 8.0]);
    let out = linear_step::<Machine>(
        &none,
        0,
        &qkv,
        &wraps(&[0.0, 0.0]),
        &wraps(&[0.0]),
        &wraps(&[0.0]),
        &mut state,
        &d,
        SumOrder::LeftToRight,
    );
    let inv = 1.0 / (1.0f32 + eps()).sqrt();
    let scale = 1.0 / (2.0f32).sqrt();
    let (k, q) = (inv * scale, inv * (scale * scale));
    let (a, b) = (k * (4.0 * 0.5), k * (8.0 * 0.5));
    assert_eq!(opens(&state.ssm_state), vec![a, a, b, b]);
    assert_eq!(opens(&out), vec![a * q + a * q, b * q + b * q]);
    assert_eq!(opens(&state.conv_state)[12..], opens(&qkv)[..]);
}

#[test]
fn recurrence_needs_heads_of_one_size() {
    assert!(recurrence_on_device(128, 128, true));
    assert!(!recurrence_on_device(128, 128, false));
    assert!(!recurrence_on_device(64, 128, true));
    assert!(!recurrence_on_device(128, 64, true));
}

struct AttnModel {
    store: Store,
    q: Vec<f32>,
    k: Vec<f32>,
    v: Vec<f32>,
    o: Vec<f32>,
    qn: Vec<f32>,
    kn: Vec<f32>,
    input: Vec<f32>,
}

fn attn_model(layer: usize, noise: &mut Noise) -> AttnModel {
    let p = format!("model.layers.{}.self_attn", layer);
    let mut store = Store::new();
    let q = store.matrix(&format!("{}.q_proj", p), 128, 64, noise);
    let k = store.matrix(&format!("{}.k_proj", p), 32, 64, noise);
    let v = store.matrix(&format!("{}.v_proj", p), 32, 64, noise);
    let o = store.matrix(&format!("{}.o_proj", p), 64, 64, noise);
    let qn = store.vector(&format!("{}.q_norm.weight", p), 16, noise);
    let kn = store.vector(&format!("{}.k_norm.weight", p), 16, noise);
    let input =
        store.vector(&format!("model.layers.{}.input_layernorm.weight", layer), 64, noise);
    AttnModel { store, q, k, v, o, qn, kn, input }
}

fn plain_rope(x: &mut [f32], pos: usize, heads: usize) {
    for h in 0..heads {
        for d in (0..8).step_by(2) {
            let angle = pos as f32 as f64 * 10000.0f64.powf(-2.0 * (d as f64) / 8.0);
            let (cos, sin) = (angle.cos() as f32, angle.sin() as f32);
            let (a, b) = (x[h * 16 + d], x[h * 16 + d + 1]);
            x[h * 16 + d] = a * cos - b * sin;
            x[h * 16 + d + 1] = a * sin + b * cos;
        }
    }
}

/// Full attention written out: four heads of 16, two of them to each head of keys and values.
fn plain_attention(
    m: &AttnModel,
    normed: &[f32],
    residual: &[f32],
    ks: &mut Vec<f32>,
    vs: &mut Vec<f32>,
    len: &mut usize,
    pos: usize,
    style: AttnStyle,
) -> Vec<f32> {
    let server = style == AttnStyle::Server;
    let both = times(&m.q, normed, 128);
    let mut k = times(&m.k, normed, 32);
    let v = times(&m.v, normed, 32);
    let mut q = vec![0.0f32; 64];
    let mut second = vec![0.0f32; 64];
    for h in 0..4 {
        for i in 0..16 {
            q[h * 16 + i] = both[h * 32 + i];
            second[h * 16 + i] = both[h * 32 + 16 + i];
        }
    }
    for (x, w, heads) in [(&mut q, &m.qn, 4), (&mut k, &m.kn, 2)] {
        for h in 0..heads {
            let end = if server { x.len() } else { (h + 1) * 16 };
            let ssq: f32 = x[h * 16..end].iter().map(|v| v * v).sum();
            let inv = 1.0 / (ssq / 16.0 + eps()).sqrt();
            for i in 0..16 {
                let y = x[h * 16 + i];
                x[h * 16 + i] = if server { y * inv * w[i] } else { y * (inv * w[i]) };
            }
        }
    }
    plain_rope(&mut q, pos, 4);
    plain_rope(&mut k, pos, 2);
    ks[*len * 32..(*len + 1) * 32].copy_from_slice(&k);
    vs[*len * 32..(*len + 1) * 32].copy_from_slice(&v);
    *len += 1;
    let scale = 1.0f32 / 16.0f32.sqrt();
    let mut out = vec![0.0f32; 64];
    for h in 0..4 {
        let kv = h / 2;
        let mut scores = vec![0.0f32; *len];
        for p in 0..*len {
            let at = p * 32 + kv * 16;
            scores[p] = if server {
                dot(&q[h * 16..], &ks[at..]) * scale
            } else {
                dot(&q[h * 16..(h + 1) * 16], &ks[at..at + 16]) * scale
            };
        }
        let top = scores.iter().fold(f32::NEG_INFINITY, |a, &b| a.max(b));
        let exps: Vec<f32> = scores.iter().map(|s| (s - top).exp()).collect();
        let sum: f32 = exps.iter().sum();
        let inv = 1.0 / sum;
        for p in 0..*len {
            let w = exps[p] * inv;
            for d in 0..16 {
                out[h * 16 + d] += w * vs[p * 32 + kv * 16 + d];
            }
        }
    }
    for i in 0..64 {
        if server {
            out[i] *= 1.0f32 / (1.0f32 + (-second[i]).exp());
        } else {
            out[i] = plain_silu(out[i]);
        }
    }
    let o = times(&m.o, &out, 64);
    residual.iter().zip(o.iter()).map(|(a, b)| a + b).collect()
}

#[test]
fn attention_over_tokens_as_the_server_does() {
    let mut noise = Noise { state: 4 };
    let m = attn_model(3, &mut noise);
    let ws = m.store.weights();
    let d = attn_dims(&small());
    let mut kv = FullAttnCache::new(8, 32);
    let (mut ks, mut vs, mut len) = (vec![0.0f32; 256], vec![0.0f32; 256], 0usize);
    for pos in 0..6 {
        let x = noise.many(64);
        let normed = plain_norm(&x, &m.input);
        let want = plain_attention(
            &m, &normed, &x, &mut ks, &mut vs, &mut len, pos, AttnStyle::Server,
        );
        let mut hidden = wraps(&x);
        full_attention_forward::<Machine>(&ws, 3, &mut hidden, &mut kv, pos, &d);
        assert_eq!(opens(&hidden), want);
        assert_eq!(kv.len, pos + 1);
        assert_eq!(opens(&kv.k_cache), ks);
        assert_eq!(opens(&kv.v_cache), vs);
    }
}

#[test]
fn attention_over_tokens_within_heads() {
    let mut noise = Noise { state: 5 };
    let m = attn_model(3, &mut noise);
    let ws = m.store.weights();
    let d = attn_dims(&small());
    let mut kv = FullAttnCache::new(8, 32);
    // A cache that was reset answers as a new one, whatever its room held.
    for i in 0..256 {
        kv.k_cache[i] = wrap(100.0);
        kv.v_cache[i] = wrap(100.0);
    }
    kv.reset();
    let (mut ks, mut vs, mut len) = (vec![0.0f32; 256], vec![0.0f32; 256], 0usize);
    for pos in 0..4 {
        let x = noise.many(64);
        let y = noise.many(64);
        let want = plain_attention(
            &m, &x, &y, &mut ks, &mut vs, &mut len, pos, AttnStyle::Reference,
        );
        let got = full_attention::<Machine>(
            &ws, 3, &wraps(&x), &wraps(&y), &mut kv, pos, &d, AttnStyle::Reference,
        );
        assert_eq!(opens(&got), want);
        let used = (pos + 1) * 32;
        assert_eq!(opens(&kv.k_cache[..used]), ks[..used].to_vec());
    }
}

#[test]
fn attention_without_tensors() {
    let none = Weights { tensors: Vec::new() };
    let d = AttnDims {
        num_attn_heads: 1,
        num_kv_heads: 1,
        head_dim: 2,
        rotary_dim: 2,
        rope_theta: 10000.0f64.to_bits(),
    };
    let mut kv = FullAttnCache::new(2, 2);
    let mut hidden = wraps(&[1.0, 2.0]);
    full_attention_forward::<Machine>(&none, 3, &mut hidden, &mut kv, 0, &d);
    assert_eq!(opens(&hidden), vec![1.0, 2.0]);
    assert_eq!(kv.len, 1);
}

struct MoeModel {
    gate: Vec<f32>,
    sg: Vec<f32>,
    su: Vec<f32>,
    score: Vec<f32>,
    sd: Vec<f32>,
    post: Vec<f32>,
}

fn moe_model(store: &mut Store, layer: usize, noise: &mut Noise) -> MoeModel {
    let p = format!("model.layers.{}.mlp", layer);
    let gate = store.matrix(&format!("{}.gate", p), 5, 64, noise);
    let sg = store.matrix(&format!("{}.shared_expert.gate_proj", p), 64, 64, noise);
    let su = store.matrix(&format!("{}.shared_expert.up_proj", p), 64, 64, noise);
    let score = store.matrix(&format!("{}.shared_expert_gate", p), 1, 64, noise);
    let sd = store.matrix(&format!("{}.shared_expert.down_proj", p), 64, 64, noise);
    let post =
        store.vector(&format!("model.layers.{}.post_attention_layernorm.weight", layer), 64, noise);
    MoeModel { gate, sg, su, score, sd, post }
}

/// A layer of experts written out; `reads` says which experts can be read.
fn plain_moe(m: &MoeModel, mats: &[Vec<Vec<f32>>], reads: &[bool], hidden: &[f32]) -> Vec<f32> {
    let x = plain_norm(hidden, &m.post);
    let scores = times(&m.gate, &x, 5);
    let (idx, w) = route::<Machine>(&wraps(&scores), 2, SumOrder::LeftToRight);
    let w = opens(&w);
    let mut sum = vec![0.0f32; 64];
    for (&e, &w) in idx.iter().zip(w.iter()) {
        if reads[e] {
            let out = plain_expert(&mats[e], &x);
            for d in 0..64 {
                sum[d] += out[d] * w;
            }
        }
    }
    let g = times(&m.sg, &x, 64);
    let u = times(&m.su, &x, 64);
    let act: Vec<f32> = g.iter().zip(u.iter()).map(|(&g, &u)| plain_silu(g) * u).collect();
    let shared = times(&m.sd, &act, 64);
    let weight = 1.0 / (1.0 + (-dot(&m.score, &x)).exp());
    (0..64).map(|i| hidden[i] + sum[i] + weight * shared[i]).collect()
}

#[test]
fn one_expert() {
    let mut noise = Noise { state: 6 };
    let c = small();
    let (bytes, mats) = expert(&mut noise);
    assert_eq!(bytes.len(), c.expert_size_4bit);
    let x = noise.many(64);
    let got = run_expert::<Machine>(&bytes, &c.expert_layout_4bit, &wraps(&x), 64);
    assert_eq!(opens(&got), plain_expert(&mats, &x));
    assert_eq!(expert_offset(3, 1769472), 5308416);
    assert_eq!(expert_offset(0, 1769472), 0);
}

#[test]
fn experts_of_a_layer() {
    let mut noise = Noise { state: 7 };
    let c = small();
    let mut store = Store::new();
    let m = moe_model(&mut store, 1, &mut noise);
    let ws = store.weights();
    let all: Vec<(Vec<u8>, Vec<Vec<f32>>)> = (0..5).map(|_| expert(&mut noise)).collect();
    let mats: Vec<Vec<Vec<f32>>> = all.iter().map(|e| e.1.clone()).collect();
    for hole in 0..6 {
        let reads: Vec<bool> = (0..5).map(|e| e != hole).collect();
        let experts: Vec<Option<Vec<u8>>> =
            (0..5).map(|e| if reads[e] { Some(all[e].0.clone()) } else { None }).collect();
        let x = noise.many(64);
        let mut hidden = wraps(&x);
        moe_layer_forward::<Machine>(&ws, 1, &mut hidden, &experts, &c);
        assert_eq!(opens(&hidden), plain_moe(&m, &mats, &reads, &x));
    }
}

#[test]
fn outputs_of_a_device_are_used_where_they_are_not_zero() {
    let mut noise = Noise { state: 8 };
    let c = small();
    let (bytes, mats) = expert(&mut noise);
    let x = noise.many(64);
    let weights = wraps(&[0.5, 0.25]);
    let outs = vec![wraps(&vec![2.0; 64]), wraps(&vec![4.0; 64])];
    let l = &c.expert_layout_4bit;
    let size = c.expert_size_4bit;
    let got = sum_experts::<Machine>(&outs, &Vec::new(), &weights, l, &wraps(&x), 64, size);
    assert_eq!(opens(&got), vec![2.0; 64]);
    let zero = vec![wraps(&vec![0.0; 64]); 2];
    let reads = vec![None, Some(bytes)];
    let got = sum_experts::<Machine>(&zero, &reads, &weights, l, &wraps(&x), 64, size);
    let want: Vec<f32> = plain_expert(&mats, &x).iter().map(|v| 0.0 + v * 0.25).collect();
    assert_eq!(opens(&got), want);
}

#[test]
fn layer_of_experts_in_parts() {
    let mut noise = Noise { state: 9 };
    let c = small();
    let mut store = Store::new();
    let m = moe_model(&mut store, 0, &mut noise);
    let ws = store.weights();
    let x = noise.many(64);
    let h_post = post_norm::<Machine>(&ws, 0, &wraps(&x), SumOrder::LeftToRight);
    assert_eq!(opens(&h_post), plain_norm(&x, &m.post));
    let input = moe_projections::<Machine>(&ws, 0, h_post, &c);
    assert_eq!(opens(&input.gate_scores), times(&m.gate, &plain_norm(&x, &m.post), 5));
    // The outputs of a device, weighted, and the shared expert.
    let outs = vec![wraps(&vec![1.0; 64])];
    let got = moe_finish::<Machine>(
        &ws,
        0,
        &wraps(&x),
        &input,
        &outs,
        &Vec::new(),
        &wraps(&[0.5]),
        &c,
    );
    let act: Vec<f32> = opens(&input.shared_gate)
        .iter()
        .zip(opens(&input.shared_up).iter())
        .map(|(&g, &u)| plain_silu(g) * u)
        .collect();
    let shared = times(&m.sd, &act, 64);
    let w = 1.0 / (1.0 + (-open(input.shared_gate_score)).exp());
    let want: Vec<f32> = (0..64).map(|i| x[i] + 0.5 + w * shared[i]).collect();
    assert_eq!(opens(&got), want);
    let none = Weights { tensors: Vec::new() };
    assert_eq!(opens(&input_norm::<Machine>(&none, 0, &wraps(&x), SumOrder::LeftToRight)), x);
}

#[test]
fn whole_layers() {
    let mut noise = Noise { state: 10 };
    let c = small();
    let mut states = new_layer_states(&c);
    assert_eq!(states.len(), 4);
    for (l, s) in states.iter().enumerate() {
        match s {
            LayerState::FullAttention(kv) => {
                assert_eq!(l, 3);
                assert_eq!((kv.k_cache.len(), kv.len), (4096 * 32, 0));
            }
            LayerState::LinearAttention(st) => {
                assert_ne!(l, 3);
                assert_eq!(st.conv_state.len(), 3 * 96);
            }
        }
    }
    let all: Vec<(Vec<u8>, Vec<Vec<f32>>)> = (0..5).map(|_| expert(&mut noise)).collect();
    let mats: Vec<Vec<Vec<f32>>> = all.iter().map(|e| e.1.clone()).collect();
    let experts: Vec<Option<Vec<u8>>> = all.iter().map(|e| Some(e.0.clone())).collect();

    let mut lm = linear_model(0, &mut noise);
    let moe = moe_model(&mut lm.store, 0, &mut noise);
    let ws = lm.store.weights();
    let x = noise.many(64);
    let mid = plain_linear(&lm, &x, &mut vec![0.0; 288], &mut vec![0.0; 512]);
    let want = plain_moe(&moe, &mats, &[true; 5], &mid);
    let mut hidden = wraps(&x);
    forward_layer::<Machine>(&ws, 0, &mut hidden, &mut states[0], 0, &experts, &c);
    assert_eq!(opens(&hidden), want);
    let mut cache = Cache::new(&c);
    let mut hidden = wraps(&x);
    reference_layer::<Machine>(&ws, 0, &mut hidden, &mut cache, &experts, &c);
    assert_eq!(opens(&hidden), want);

    let mut am = attn_model(3, &mut noise);
    let moe = moe_model(&mut am.store, 3, &mut noise);
    let ws = am.store.weights();
    for style in [AttnStyle::Server, AttnStyle::Reference] {
        let normed = plain_norm(&x, &am.input);
        let (mut ks, mut vs, mut len) =
            (vec![0.0f32; 4096 * 32], vec![0.0f32; 4096 * 32], 0usize);
        let pos = if style == AttnStyle::Server { 9 } else { 2 };
        let mid =
            plain_attention(&am, &normed, &x, &mut ks, &mut vs, &mut len, pos, style);
        let want = plain_moe(&moe, &mats, &[true; 5], &mid);
        let mut hidden = wraps(&x);
        if style == AttnStyle::Server {
            forward_layer::<Machine>(&ws, 3, &mut hidden, &mut states[3], 9, &experts, &c);
        } else {
            cache.pos = 2;
            reference_layer::<Machine>(&ws, 3, &mut hidden, &mut cache, &experts, &c);
            assert_eq!(cache.pos, 2);
        }
        assert_eq!(opens(&hidden), want);
    }
}

/// A model of four layers with made-up tensors, and its experts.
fn whole_model(noise: &mut Noise) -> (Store, Vec<Vec<Option<Vec<u8>>>>) {
    let mut store = Store::new();
    store.matrix("model.embed_tokens", 10, 64, noise);
    store.matrix("lm_head", 10, 64, noise);
    store.vector("model.norm.weight", 64, noise);
    let mut experts = Vec::new();
    for layer in 0..4 {
        let part = if layer == 3 {
            attn_model(layer, noise).store
        } else {
            linear_model(layer, noise).store
        };
        store.tensors.extend(part.tensors);
        moe_model(&mut store, layer, noise);
        experts.push((0..5).map(|_| Some(expert(noise).0)).collect());
    }
    (store, experts)
}

fn no_answers() -> Vec<Vec<bool>> {
    Vec::new()
}

#[test]
fn whole_runs() {
    let mut noise = Noise { state: 21 };
    let c = small();
    let (store, experts) = whole_model(&mut noise);
    let ws = store.weights();
    let ids = [3i64, 1, 7, 7];

    // Layer by layer.
    let mut cache = Cache::new(&c);
    let mut want = Vec::new();
    for (t, &id) in ids.iter().enumerate() {
        let mut hidden = wraps(&[0.0; 64]);
        embed_lookup::<Machine>(&ws, id as usize, &mut hidden);
        for layer in 0..4 {
            reference_layer::<Machine>(&ws, layer, &mut hidden, &mut cache, &experts[layer], &c);
        }
        cache.advance();
        assert_eq!(cache.pos, t + 1);
        want.extend(opens(&final_norm_and_lm_head::<Machine>(&ws, &mut hidden, 10)));
    }
    assert!(want.iter().all(|v| v.is_finite()));
    assert_ne!(want[20..30], want[30..40]);

    let mut other = Cache::new(&c);
    let got = forward::<Machine>(&ws, &ids, &mut other, &experts, &no_answers(), &c);
    assert_eq!(opens(&got.ok().unwrap()), want);
    assert_eq!(other.pos, 4);
    assert_eq!(other.kv[3].as_ref().unwrap().len, 4);

    // In pieces.
    let mut pieces = Cache::new(&c);
    let mut got = Vec::new();
    for part in [&ids[..1], &ids[1..1], &ids[1..]] {
        let l = forward::<Machine>(&ws, part, &mut pieces, &experts, &no_answers(), &c);
        got.extend(opens(&l.ok().unwrap()));
    }
    assert_eq!(got, want);
    assert_eq!(pieces.pos, 4);

    // After a reset.
    other.reset();
    assert!(other.kv[3].as_ref().unwrap().k_cache.iter().any(|v| v.bits != 0));
    let got = forward::<Machine>(&ws, &ids, &mut other, &experts, &no_answers(), &c);
    assert_eq!(opens(&got.ok().unwrap()), want);
}

#[test]
fn runs_that_are_stopped() {
    let mut noise = Noise { state: 22 };
    let c = small();
    let (store, experts) = whole_model(&mut noise);
    let ws = store.weights();
    let mut cache = Cache::new(&c);
    let first = forward::<Machine>(&ws, &[5, 2], &mut cache, &experts, &no_answers(), &c);
    assert_eq!(first.ok().unwrap().len(), 20);

    // Nothing to run: nothing is asked.
    let yes = vec![vec![true]];
    let none = forward::<Machine>(&ws, &[], &mut cache, &experts, &yes, &c);
    assert!(none.ok().unwrap().is_empty());
    assert_eq!(cache.pos, 2);

    let answers = vec![vec![false], vec![true]];
    match forward::<Machine>(&ws, &[1, 4, 6], &mut cache, &experts, &answers, &c) {
        Err(MoEError::Metal(text)) => assert_eq!(text, "interrupted"),
        _ => panic!("not stopped"),
    }
    assert_eq!(cache.pos, 3);
    assert_eq!(cache.kv[3].as_ref().unwrap().len, 3);
}

#[test]
fn sums_in_both_orders() {
    let x = wraps(&[1.0, 1e8, -1e8, 0.5]);
    assert_eq!(open(sum::<Machine>(&x, SumOrder::LeftToRight)), 0.5);
    assert_eq!(open(sum::<Machine>(&x, SumOrder::Supplied)), open(Machine::sum(&x)));
    assert_eq!(open(sum::<Machine>(&[], SumOrder::LeftToRight)), 0.0);
}

#[test]
fn convolution_of_a_token() {
    let mut noise = Noise { state: 11 };
    let m = linear_model(1, &mut noise);
    let ws = m.store.weights();
    let d = lin_dims(&small());
    let mut state = LinearAttnState::new(4, 8, 16, 96);
    state.conv_state = wraps(&noise.many(288));
    let before = opens(&state.conv_state);
    let x = noise.many(96);
    let got = opens(&convolve_token::<Machine>(&ws, 1, &wraps(&x), &mut state, &d));
    for c in 0..96 {
        let mut acc = 0.0f32;
        for k in 0..3 {
            acc += before[k * 96 + c] * m.conv[c * 4 + k];
        }
        acc += x[c] * m.conv[c * 4 + 3];
        assert_eq!(got[c], plain_silu(acc));
    }
    let after = opens(&state.conv_state);
    assert_eq!(&after[..192], &before[96..]);
    assert_eq!(&after[192..], &x[..]);
    assert!(state.ssm_state.iter().all(|v| v.bits == 0));
}

#[test]
fn sizes_that_fit() {
    assert!(sizes_ready(&small()));
    assert!(token_ready(&small(), 0) && token_ready(&small(), 4095));
    assert!(!token_ready(&small(), 4096));
    // The last query head looks behind the last token.
    let mut c = small();
    c.num_kv_heads = 3;
    assert!(sizes_ready(&c));
    assert!(token_ready(&c, 0) && token_ready(&c, 4094));
    assert!(!token_ready(&c, 4095));
    c.num_attn_heads = 0;
    assert!(sizes_ready(&c) && token_ready(&c, 4095));
    let mut c = small();
    c.num_kv_heads = 5;
    assert!(!sizes_ready(&c));
    let mut c = small();
    c.linear_num_v_heads = 5;
    c.linear_total_value = 60;
    assert!(!sizes_ready(&c));
    c.linear_total_key = 1;
    assert!(sizes_ready(&c));
    let mut c = small();
    c.rotary_dim = 17;
    assert!(!sizes_ready(&c));
    let mut c = small();
    c.rotary_dim = 15;
    assert!(sizes_ready(&c));
    let mut c = small();
    c.linear_conv_dim = 95;
    assert!(!sizes_ready(&c));
    let mut c = small();
    c.num_experts_per_tok = 0;
    assert!(!sizes_ready(&c));
    let mut c = small();
    c.expert_size_4bit -= 1;
    assert!(!sizes_ready(&c));
    let mut c = small();
    c.linear_num_k_heads = 0;
    assert!(!sizes_ready(&c));
    let mut c = small();
    c.head_dim = usize::MAX;
    assert!(!sizes_ready(&c));
}

#[test]
fn tensors_that_fit() {
    let mut noise = Noise { state: 12 };
    let c = small();
    let mut lm = linear_model(0, &mut noise);
    moe_model(&mut lm.store, 0, &mut noise);
    assert!(layer_ready(&lm.store.weights(), 0, &c));
    let mut am = attn_model(3, &mut noise);
    moe_model(&mut am.store, 3, &mut noise);
    assert!(layer_ready(&am.store.weights(), 3, &c));
    // A layer without tensors can run; one whose tensors are too small cannot.
    assert!(layer_ready(&am.store.weights(), 7, &c));
    am.store.matrix("model.layers.7.self_attn.q_proj", 127, 64, &mut noise);
    assert!(!layer_ready(&am.store.weights(), 7, &c));
    lm.store.vector("model.layers.1.linear_attn.dt_bias", 3, &mut noise);
    assert!(!layer_ready(&lm.store.weights(), 1, &c));

    let mut store = Store::new();
    assert!(head_ready(&store.weights(), &c));
    assert!(embed_ready(&store.weights(), 100, 64));
    store.matrix("lm_head", 10, 64, &mut noise);
    store.matrix("model.embed_tokens", 6, 64, &mut noise);
    assert!(head_ready(&store.weights(), &c));
    assert!(embed_ready(&store.weights(), 5, 64));
    assert!(!embed_ready(&store.weights(), 6, 64));
    assert!(!embed_ready(&store.weights(), usize::MAX, 64));
    store.vector("model.norm.weight", 63, &mut noise);
    assert!(!head_ready(&store.weights(), &c));
}
