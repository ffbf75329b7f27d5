//! The commands that a graphics device runs for a layer.

use crate::attention::AttnDims;
use crate::cache::LinearAttnState;
use crate::config::{ExpertLayout, ModelConfig};
use crate::float::{F32, zero};
use crate::linear::LinDims;
use crate::weights::{in_layer, layer_name};
use vstd::prelude::*;

verus! {

/// A buffer of the device.
#[derive(Clone, Copy, Debug, PartialEq, Eq, Structural)]
pub enum Slot {
    /// The weight file.
    Weights,
    /// The vector that the projections multiply.
    Input,
    /// The vector that the result is added to.
    Residual,
    /// An output of a projection.
    Batch(usize),
    /// The last inputs of the convolution, of a linear layer.
    ConvState(usize),
    /// Queries, keys and values behind each other, as the convolution leaves them.
    ConvOut,
    /// The queries alone.
    Queries,
    /// The keys alone.
    Keys,
    /// The values alone.
    Values,
    /// The logarithms of the decay rates.
    ALog,
    /// The offsets of the time steps.
    DtBias,
    /// The weights of the gated norm.
    NormWeight,
    /// The matrices of the recurrence, of a linear layer.
    DeltaState(usize),
    /// How much of its matrix each head keeps.
    Decay,
    /// How much each head learns.
    BetaGate,
    /// What the heads read from their matrices.
    DeltaOut,
    /// The same, after the gated norm.
    Gated,
    /// The vector that the last projection gives.
    Projected,
    /// The hidden vector that results.
    Hidden,
    /// The bytes of a chosen expert.
    Expert(usize),
    /// The first projection of an expert.
    ExpertGate,
    /// The second projection of an expert.
    ExpertUp,
    /// The input of an expert's third projection.
    ExpertAct,
    /// The output of a chosen expert.
    ExpertOut(usize),
}

/// A place in a buffer, in bytes from its start.
#[derive(Clone, Copy, Debug, PartialEq, Eq, Structural)]
pub struct Place {
    pub slot: Slot,
    pub offset: usize,
}

/// A packed matrix of the weight file.
#[derive(Clone, Copy, Debug, PartialEq, Eq, Structural)]
pub enum Projection {
    LinearQkv,
    LinearZ,
    LinearB,
    LinearA,
    LinearOut,
    Query,
    Key,
    Value,
    AttnOut,
    Router,
    SharedGate,
    SharedUp,
    SharedScore,
    SharedDown,
    Head,
}

/// The name of a projection's tensors, without what is behind the last dot.
pub open spec fn projection_text(layer: int, p: Projection) -> Seq<char> {
    match p {
        Projection::LinearQkv => in_layer(layer, ".linear_attn.in_proj_qkv"@),
        Projection::LinearZ => in_layer(layer, ".linear_attn.in_proj_z"@),
        Projection::LinearB => in_layer(layer, ".linear_attn.in_proj_b"@),
        Projection::LinearA => in_layer(layer, ".linear_attn.in_proj_a"@),
        Projection::LinearOut => in_layer(layer, ".linear_attn.out_proj"@),
        Projection::Query => in_layer(layer, ".self_attn.q_proj"@),
        Projection::Key => in_layer(layer, ".self_attn.k_proj"@),
        Projection::Value => in_layer(layer, ".self_attn.v_proj"@),
        Projection::AttnOut => in_layer(layer, ".self_attn.o_proj"@),
        Projection::Router => in_layer(layer, ".mlp.gate"@),
        Projection::SharedGate => in_layer(layer, ".mlp.shared_expert.gate_proj"@),
        Projection::SharedUp => in_layer(layer, ".mlp.shared_expert.up_proj"@),
        Projection::SharedScore => in_layer(layer, ".mlp.shared_expert_gate"@),
        Projection::SharedDown => in_layer(layer, ".mlp.shared_expert.down_proj"@),
        Projection::Head => "lm_head"@,
    }
}

/// The name of a projection's tensors.
pub fn projection_name(layer: usize, p: Projection) -> (r: String)
    ensures
        r@ == projection_text(layer as int, p),
{
    match p {
        Projection::LinearQkv => layer_name(layer, ".linear_attn.in_proj_qkv"),
        Projection::LinearZ => layer_name(layer, ".linear_attn.in_proj_z"),
        Projection::LinearB => layer_name(layer, ".linear_attn.in_proj_b"),
        Projection::LinearA => layer_name(layer, ".linear_attn.in_proj_a"),
        Projection::LinearOut => layer_name(layer, ".linear_attn.out_proj"),
        Projection::Query => layer_name(layer, ".self_attn.q_proj"),
        Projection::Key => layer_name(layer, ".self_attn.k_proj"),
        Projection::Value => layer_name(layer, ".self_attn.v_proj"),
        Projection::AttnOut => layer_name(layer, ".self_attn.o_proj"),
        Projection::Router => layer_name(layer, ".mlp.gate"),
        Projection::SharedGate => layer_name(layer, ".mlp.shared_expert.gate_proj"),
        Projection::SharedUp => layer_name(layer, ".mlp.shared_expert.up_proj"),
        Projection::SharedScore => layer_name(layer, ".mlp.shared_expert_gate"),
        Projection::SharedDown => layer_name(layer, ".mlp.shared_expert.down_proj"),
        Projection::Head => "lm_head".to_owned(),
    }
}

/// One kernel with its buffers and sizes.
#[derive(Clone, Copy, Debug, PartialEq, Eq, Structural)]
pub enum Command {
    /// A matrix of the weight file times a vector.
    MatVec { matrix: Projection, x: Slot, out: Slot, rows: usize, cols: usize },
    /// A matrix of an expert times a vector; words, scales and biases lie at the given bytes.
    ExpertMatVec {
        expert: Slot,
        words: usize,
        scales: usize,
        biases: usize,
        x: Slot,
        out: Slot,
        rows: usize,
        cols: usize,
    },
    /// The first vector through its activation, times the second.
    Swiglu { gate: Slot, up: Slot, out: Slot, n: usize },
    /// A step of the convolution.
    Convolve { state: Slot, x: Slot, weight: Place, out: Slot, n: usize },
    /// The heads of queries and keys brought to the same length, in place, and scaled.
    NormQk { q: Place, k: Place, heads: usize, dim: usize, scale: F32 },
    /// Decay and learning rate of each head.
    DecayBeta {
        alpha: Slot,
        beta: Slot,
        a_log: Place,
        dt_bias: Place,
        decay: Slot,
        beta_gate: Slot,
        heads: usize,
    },
    /// A step of the recurrence.
    DeltaStep {
        state: Slot,
        q: Place,
        k: Place,
        v: Place,
        decay: Slot,
        beta_gate: Slot,
        out: Slot,
        v_heads: usize,
        v_heads_per_k: usize,
        key_dim: usize,
        value_dim: usize,
    },
    /// Each head brought to the same length, weighted, and gated.
    GatedNorm { x: Slot, z: Slot, weight: Place, out: Slot, heads: usize, dim: usize },
    /// The sum of two vectors, in groups of threads.
    AddResidual {
        x: Slot,
        residual: Slot,
        out: Slot,
        n: usize,
        groups: usize,
        threads: usize,
    },
}

/// Where the tensors of a linear layer lie in the weight file, those that are there.
#[derive(Clone, Copy, Debug, PartialEq, Eq, Structural)]
pub struct LinearPlaces {
    pub conv: Option<usize>,
    pub a_log: Option<usize>,
    pub dt_bias: Option<usize>,
    pub norm: Option<usize>,
}

/// The four projections of a linear layer.
pub open spec fn linear_projections(d: LinDims, hidden: usize) -> Seq<Command> {
    seq![
        Command::MatVec {
            matrix: Projection::LinearQkv,
            x: Slot::Input,
            out: Slot::Batch(0),
            rows: d.qkv_dim,
            cols: hidden,
        },
        Command::MatVec {
            matrix: Projection::LinearZ,
            x: Slot::Input,
            out: Slot::Batch(1),
            rows: d.total_value,
            cols: hidden,
        },
        Command::MatVec {
            matrix: Projection::LinearB,
            x: Slot::Input,
            out: Slot::Batch(2),
            rows: d.num_v_heads,
            cols: hidden,
        },
        Command::MatVec {
            matrix: Projection::LinearA,
            x: Slot::Input,
            out: Slot::Batch(3),
            rows: d.num_v_heads,
            cols: hidden,
        },
    ]
}

/// The projections of a linear layer: all four multiply the same vector.
pub fn linear_projection_pass(d: &LinDims, hidden_dim: usize) -> (r: Vec<Command>)
    ensures
        r@ == linear_projections(*d, hidden_dim),
{
    vec![
        Command::MatVec {
            matrix: Projection::LinearQkv,
            x: Slot::Input,
            out: Slot::Batch(0),
            rows: d.qkv_dim,
            cols: hidden_dim,
        },
        Command::MatVec {
            matrix: Projection::LinearZ,
            x: Slot::Input,
            out: Slot::Batch(1),
            rows: d.total_value,
            cols: hidden_dim,
        },
        Command::MatVec {
            matrix: Projection::LinearB,
            x: Slot::Input,
            out: Slot::Batch(2),
            rows: d.num_v_heads,
            cols: hidden_dim,
        },
        Command::MatVec {
            matrix: Projection::LinearA,
            x: Slot::Input,
            out: Slot::Batch(3),
            rows: d.num_v_heads,
            cols: hidden_dim,
        },
    ]
}

/// A place in the weight file, or the start of another buffer where the tensor is missing.
pub open spec fn place_or(offset: Option<usize>, other: Slot) -> Place {
    match offset {
        Some(o) => Place { slot: Slot::Weights, offset: o },
        None => Place { slot: other, offset: 0 },
    }
}

fn place_or_other(offset: Option<usize>, other: Slot) -> (r: Place)
    ensures
        r == place_or(offset, other),
{
    match offset {
        Some(o) => Place { slot: Slot::Weights, offset: o },
        None => Place { slot: other, offset: 0 },
    }
}

/// The step of the convolution.
pub open spec fn convolve(d: LinDims, linear_idx: usize, offset: usize) -> Command {
    Command::Convolve {
        state: Slot::ConvState(linear_idx),
        x: Slot::Batch(0),
        weight: Place { slot: Slot::Weights, offset },
        out: Slot::ConvOut,
        n: d.qkv_dim,
    }
}

/// Queries and keys, one behind the other, brought to the same length.
pub open spec fn norm_joined(d: LinDims, scale: F32) -> Command {
    Command::NormQk {
        q: Place { slot: Slot::ConvOut, offset: 0 },
        k: Place { slot: Slot::ConvOut, offset: (4 * d.total_key) as usize },
        heads: d.num_k_heads,
        dim: d.key_dim() as usize,
        scale,
    }
}

/// Decay and learning rates. Where the logarithms or the offsets are missing, the projection that
/// they go with stands in.
pub open spec fn decay_beta(d: LinDims, w: LinearPlaces) -> Command {
    Command::DecayBeta {
        alpha: Slot::Batch(3),
        beta: Slot::Batch(2),
        a_log: place_or(w.a_log, Slot::Batch(3)),
        dt_bias: place_or(w.dt_bias, Slot::Batch(2)),
        decay: Slot::Decay,
        beta_gate: Slot::BetaGate,
        heads: d.num_v_heads,
    }
}

/// The step of the recurrence, on queries, keys and values one behind the other.
pub open spec fn delta_joined(d: LinDims, linear_idx: usize) -> Command {
    Command::DeltaStep {
        state: Slot::DeltaState(linear_idx),
        q: Place { slot: Slot::ConvOut, offset: 0 },
        k: Place { slot: Slot::ConvOut, offset: (4 * d.total_key) as usize },
        v: Place { slot: Slot::ConvOut, offset: (8 * d.total_key) as usize },
        decay: Slot::Decay,
        beta_gate: Slot::BetaGate,
        out: Slot::DeltaOut,
        v_heads: d.num_v_heads,
        v_heads_per_k: d.num_v_heads / d.num_k_heads,
        key_dim: d.key_dim() as usize,
        value_dim: d.value_dim() as usize,
    }
}

/// The gated norm, where its weights are there.
pub open spec fn gated_norm(d: LinDims, weight: Option<Place>) -> Seq<Command> {
    match weight {
        Some(p) => seq![
            Command::GatedNorm {
                x: Slot::DeltaOut,
                z: Slot::Batch(1),
                weight: p,
                out: Slot::Gated,
                heads: d.num_v_heads,
                dim: d.value_dim() as usize,
            },
        ],
        None => Seq::empty(),
    }
}

fn gated_norm_pass(d: &LinDims, weight: Option<Place>) -> (r: Vec<Command>)
    requires
        d.num_v_heads > 0,
    ensures
        r@ == gated_norm(*d, weight),
{
    let mut out: Vec<Command> = Vec::new();
    match weight {
        Some(p) => {
            out.push(
                Command::GatedNorm {
                    x: Slot::DeltaOut,
                    z: Slot::Batch(1),
                    weight: p,
                    out: Slot::Gated,
                    heads: d.num_v_heads,
                    dim: d.total_value / d.num_v_heads,
                },
            );
        },
        None => {},
    }
    assert(out@ =~= gated_norm(*d, weight));
    out
}

/// Where the weights of the gated norm lie in the weight file.
pub open spec fn norm_place(w: LinearPlaces) -> Option<Place> {
    match w.norm {
        Some(o) => Some(Place { slot: Slot::Weights, offset: o }),
        None => None,
    }
}

/// The output projection of a linear layer.
pub open spec fn linear_out(d: LinDims, hidden: usize) -> Command {
    Command::MatVec {
        matrix: Projection::LinearOut,
        x: Slot::Gated,
        out: Slot::Projected,
        rows: hidden,
        cols: d.total_value,
    }
}

/// The sum with the vector that came in.
pub open spec fn add_residual(hidden: usize) -> Command {
    Command::AddResidual {
        x: Slot::Projected,
        residual: Slot::Residual,
        out: Slot::Hidden,
        n: hidden,
        groups: ((hidden + 255) / 256) as usize,
        threads: 256,
    }
}

/// A linear layer in one go: one pass after the other, the commands of a pass in any order.
pub open spec fn fused_passes(
    d: LinDims,
    hidden: usize,
    linear_idx: usize,
    scale: F32,
    w: LinearPlaces,
) -> Seq<Seq<Command>> {
    let conv = match w.conv {
        Some(o) => seq![seq![convolve(d, linear_idx, o)]],
        None => Seq::empty(),
    };
    seq![linear_projections(d, hidden)] + conv + seq![
        seq![norm_joined(d, scale)],
        seq![decay_beta(d, w)],
        seq![delta_joined(d, linear_idx)],
        gated_norm(d, norm_place(w)),
        seq![linear_out(d, hidden)],
        seq![add_residual(hidden)],
    ]
}

/// The commands of each pass.
pub open spec fn pass_views(p: Seq<Vec<Command>>) -> Seq<Seq<Command>> {
    Seq::new(p.len(), |i: int| p[i]@)
}

fn push_pass(out: &mut Vec<Vec<Command>>, pass: Vec<Command>)
    ensures
        pass_views(final(out)@) == pass_views(old(out)@).push(pass@),
{
    let ghost before = out@;
    out.push(pass);
    assert(pass_views(out@) =~= pass_views(before).push(pass@));
}

fn push_one(out: &mut Vec<Vec<Command>>, c: Command)
    ensures
        pass_views(final(out)@) == pass_views(old(out)@).push(seq![c]),
{
    let mut pass: Vec<Command> = Vec::new();
    pass.push(c);
    assert(pass@ =~= seq![c]);
    push_pass(out, pass);
}

/// A linear layer in one go: the four projections, the convolution where its weights are there,
/// the recurrence, the gated norm, the output projection and the sum with the residual.
pub fn fusedexp_cmd1(
    d: &LinDims,
    hidden_dim: usize,
    linear_idx: usize,
    inv_scale: F32,
    w: &LinearPlaces,
) -> (r: Vec<Vec<Command>>)
    requires
        d.num_k_heads > 0,
        d.num_v_heads > 0,
        8 * d.total_key <= usize::MAX,
        hidden_dim + 255 <= usize::MAX,
    ensures
        pass_views(r@) == fused_passes(*d, hidden_dim, linear_idx, inv_scale, *w),
{
    let key_dim: usize = d.total_key / d.num_k_heads;
    let value_dim: usize = d.total_value / d.num_v_heads;
    let mut out: Vec<Vec<Command>> = Vec::new();
    push_pass(&mut out, linear_projection_pass(d, hidden_dim));
    match w.conv {
        Some(offset) => {
            push_one(
                &mut out,
                Command::Convolve {
                    state: Slot::ConvState(linear_idx),
                    x: Slot::Batch(0),
                    weight: Place { slot: Slot::Weights, offset },
                    out: Slot::ConvOut,
                    n: d.qkv_dim,
                },
            );
        },
        None => {},
    }
    push_one(
        &mut out,
        Command::NormQk {
            q: Place { slot: Slot::ConvOut, offset: 0 },
            k: Place { slot: Slot::ConvOut, offset: 4 * d.total_key },
            heads: d.num_k_heads,
            dim: key_dim,
            scale: inv_scale,
        },
    );
    push_one(
        &mut out,
        Command::DecayBeta {
            alpha: Slot::Batch(3),
            beta: Slot::Batch(2),
            a_log: place_or_other(w.a_log, Slot::Batch(3)),
            dt_bias: place_or_other(w.dt_bias, Slot::Batch(2)),
            decay: Slot::Decay,
            beta_gate: Slot::BetaGate,
            heads: d.num_v_heads,
        },
    );
    push_one(
        &mut out,
        Command::DeltaStep {
            state: Slot::DeltaState(linear_idx),
            q: Place { slot: Slot::ConvOut, offset: 0 },
            k: Place { slot: Slot::ConvOut, offset: 4 * d.total_key },
            v: Place { slot: Slot::ConvOut, offset: 8 * d.total_key },
            decay: Slot::Decay,
            beta_gate: Slot::BetaGate,
            out: Slot::DeltaOut,
            v_heads: d.num_v_heads,
            v_heads_per_k: d.num_v_heads / d.num_k_heads,
            key_dim,
            value_dim,
        },
    );
    let norm: Option<Place> = match w.norm {
        Some(o) => Some(Place { slot: Slot::Weights, offset: o }),
        None => None,
    };
    push_pass(&mut out, gated_norm_pass(d, norm));
    push_one(
        &mut out,
        Command::MatVec {
            matrix: Projection::LinearOut,
            x: Slot::Gated,
            out: Slot::Projected,
            rows: hidden_dim,
            cols: d.total_value,
        },
    );
    push_one(
        &mut out,
        Command::AddResidual {
            x: Slot::Projected,
            residual: Slot::Residual,
            out: Slot::Hidden,
            n: hidden_dim,
            groups: (hidden_dim + 255) / 256,
            threads: 256,
        },
    );
    assert(pass_views(out@) =~= fused_passes(*d, hidden_dim, linear_idx, inv_scale, *w));
    out
}

/// What the host remembers of the convolution after the device has run a layer in one go: what it
/// had moves forward by one input, and the newest, which only the device knows, is zero.
pub open spec fn conv_forgotten(state: Seq<F32>, n: int) -> Seq<F32> {
    Seq::new(
        state.len(),
        |i: int|
            if 2 * n <= i < 3 * n {
                zero()
            } else if i + n < state.len() {
                state[i + n]
            } else {
                state[i]
            },
    )
}

/// Brings the host's state up to date after the device has run a layer in one go.
pub fn forget_newest(state: &mut LinearAttnState, qkv_dim: usize)
    requires
        3 * qkv_dim <= old(state).conv_state@.len(),
    ensures
        final(state).conv_state@ == conv_forgotten(old(state).conv_state@, qkv_dim as int),
        final(state).ssm_state == old(state).ssm_state,
{
    let len: usize = state.conv_state.len();
    let ghost before = state.conv_state@;
    let ghost target = conv_forgotten(before, qkv_dim as int);
    let mut out: Vec<F32> = Vec::new();
    for i in 0..len
        invariant
            len == before.len(),
            before == state.conv_state@,
            3 * qkv_dim <= len,
            target == conv_forgotten(before, qkv_dim as int),
            out@ == target.take(i as int),
    {
        let x: F32 = if i >= 2 * qkv_dim && i < 3 * qkv_dim {
            zero()
        } else if i < len - qkv_dim {
            state.conv_state[i + qkv_dim]
        } else {
            state.conv_state[i]
        };
        out.push(x);
        assert(target.take(i + 1) =~= target.take(i as int).push(target[i as int]));
    }
    assert(target.take(len as int) =~= target);
    state.conv_state = out;
}

/// The recurrence of a linear layer on queries, keys and values that lie apart, and its gated
/// norm where the weights are there.
pub open spec fn recurrence_commands(
    d: LinDims,
    linear_idx: usize,
    scale: F32,
    has_norm: bool,
) -> Seq<Command> {
    seq![
        Command::NormQk {
            q: Place { slot: Slot::Queries, offset: 0 },
            k: Place { slot: Slot::Keys, offset: 0 },
            heads: d.num_k_heads,
            dim: d.key_dim() as usize,
            scale,
        },
        Command::DecayBeta {
            alpha: Slot::Batch(3),
            beta: Slot::Batch(2),
            a_log: Place { slot: Slot::ALog, offset: 0 },
            dt_bias: Place { slot: Slot::DtBias, offset: 0 },
            decay: Slot::Decay,
            beta_gate: Slot::BetaGate,
            heads: d.num_v_heads,
        },
        Command::DeltaStep {
            state: Slot::DeltaState(linear_idx),
            q: Place { slot: Slot::Queries, offset: 0 },
            k: Place { slot: Slot::Keys, offset: 0 },
            v: Place { slot: Slot::Values, offset: 0 },
            decay: Slot::Decay,
            beta_gate: Slot::BetaGate,
            out: Slot::DeltaOut,
            v_heads: d.num_v_heads,
            v_heads_per_k: d.num_v_heads / d.num_k_heads,
            key_dim: d.key_dim() as usize,
            value_dim: d.value_dim() as usize,
        },
    ] + gated_norm(
        d,
        if has_norm {
            Some(Place { slot: Slot::NormWeight, offset: 0 })
        } else {
            None
        },
    )
}

/// The recurrence of a linear layer, and the buffer that holds its result.
pub fn recurrence_pass(d: &LinDims, linear_idx: usize, inv_scale: F32, has_norm: bool) -> (r: (
    Vec<Command>,
    Slot,
))
    requires
        d.num_k_heads > 0,
        d.num_v_heads > 0,
    ensures
        r.0@ == recurrence_commands(*d, linear_idx, inv_scale, has_norm),
        r.1 == (if has_norm {
            Slot::Gated
        } else {
            Slot::DeltaOut
        }),
{
    let key_dim: usize = d.total_key / d.num_k_heads;
    let value_dim: usize = d.total_value / d.num_v_heads;
    let mut out: Vec<Command> = vec![
        Command::NormQk {
            q: Place { slot: Slot::Queries, offset: 0 },
            k: Place { slot: Slot::Keys, offset: 0 },
            heads: d.num_k_heads,
            dim: key_dim,
            scale: inv_scale,
        },
        Command::DecayBeta {
            alpha: Slot::Batch(3),
            beta: Slot::Batch(2),
            a_log: Place { slot: Slot::ALog, offset: 0 },
            dt_bias: Place { slot: Slot::DtBias, offset: 0 },
            decay: Slot::Decay,
            beta_gate: Slot::BetaGate,
            heads: d.num_v_heads,
        },
        Command::DeltaStep {
            state: Slot::DeltaState(linear_idx),
            q: Place { slot: Slot::Queries, offset: 0 },
            k: Place { slot: Slot::Keys, offset: 0 },
            v: Place { slot: Slot::Values, offset: 0 },
            decay: Slot::Decay,
            beta_gate: Slot::BetaGate,
            out: Slot::DeltaOut,
            v_heads: d.num_v_heads,
            v_heads_per_k: d.num_v_heads / d.num_k_heads,
            key_dim,
            value_dim,
        },
    ];
    let weight: Option<Place> = if has_norm {
        Some(Place { slot: Slot::NormWeight, offset: 0 })
    } else {
        None
    };
    let mut norm: Vec<Command> = gated_norm_pass(d, weight);
    out.append(&mut norm);
    assert(out@ =~= recurrence_commands(*d, linear_idx, inv_scale, has_norm));
    let result: Slot = if has_norm {
        Slot::Gated
    } else {
        Slot::DeltaOut
    };
    (out, result)
}

/// The projections of full attention: queries with their gates, keys, values.
pub open spec fn attention_commands(d: AttnDims, hidden: usize) -> Seq<Command> {
    seq![
        Command::MatVec {
            matrix: Projection::Query,
            x: Slot::Input,
            out: Slot::Batch(0),
            rows: (2 * (d.num_attn_heads * d.head_dim)) as usize,
            cols: hidden,
        },
        Command::MatVec {
            matrix: Projection::Key,
            x: Slot::Input,
            out: Slot::Batch(1),
            rows: (d.num_kv_heads * d.head_dim) as usize,
            cols: hidden,
        },
        Command::MatVec {
            matrix: Projection::Value,
            x: Slot::Input,
            out: Slot::Batch(2),
            rows: (d.num_kv_heads * d.head_dim) as usize,
            cols: hidden,
        },
    ]
}

/// The projections of full attention.
pub fn attention_pass(d: &AttnDims, hidden_dim: usize) -> (r: Vec<Command>)
    requires
        2 * (d.num_attn_heads * d.head_dim) <= usize::MAX,
        d.num_kv_heads * d.head_dim <= usize::MAX,
    ensures
        r@ == attention_commands(*d, hidden_dim),
{
    let q: usize = d.num_attn_heads * d.head_dim;
    let kv: usize = d.num_kv_heads * d.head_dim;
    vec![
        Command::MatVec {
            matrix: Projection::Query,
            x: Slot::Input,
            out: Slot::Batch(0),
            rows: 2 * q,
            cols: hidden_dim,
        },
        Command::MatVec {
            matrix: Projection::Key,
            x: Slot::Input,
            out: Slot::Batch(1),
            rows: kv,
            cols: hidden_dim,
        },
        Command::MatVec {
            matrix: Projection::Value,
            x: Slot::Input,
            out: Slot::Batch(2),
            rows: kv,
            cols: hidden_dim,
        },
    ]
}

/// The projections of a layer's experts that come before any of them is chosen.
pub open spec fn router_commands(c: ModelConfig) -> Seq<Command> {
    seq![
        Command::MatVec {
            matrix: Projection::Router,
            x: Slot::Input,
            out: Slot::Batch(0),
            rows: c.num_experts,
            cols: c.hidden_dim,
        },
        Command::MatVec {
            matrix: Projection::SharedGate,
            x: Slot::Input,
            out: Slot::Batch(1),
            rows: c.shared_intermediate,
            cols: c.hidden_dim,
        },
        Command::MatVec {
            matrix: Projection::SharedUp,
            x: Slot::Input,
            out: Slot::Batch(2),
            rows: c.shared_intermediate,
            cols: c.hidden_dim,
        },
        Command::MatVec {
            matrix: Projection::SharedScore,
            x: Slot::Input,
            out: Slot::Batch(3),
            rows: 1,
            cols: c.hidden_dim,
        },
    ]
}

/// The scores of the experts and the first projections of the shared expert.
pub fn router_pass(c: &ModelConfig) -> (r: Vec<Command>)
    ensures
        r@ == router_commands(*c),
{
    vec![
        Command::MatVec {
            matrix: Projection::Router,
            x: Slot::Input,
            out: Slot::Batch(0),
            rows: c.num_experts,
            cols: c.hidden_dim,
        },
        Command::MatVec {
            matrix: Projection::SharedGate,
            x: Slot::Input,
            out: Slot::Batch(1),
            rows: c.shared_intermediate,
            cols: c.hidden_dim,
        },
        Command::MatVec {
            matrix: Projection::SharedUp,
            x: Slot::Input,
            out: Slot::Batch(2),
            rows: c.shared_intermediate,
            cols: c.hidden_dim,
        },
        Command::MatVec {
            matrix: Projection::SharedScore,
            x: Slot::Input,
            out: Slot::Batch(3),
            rows: 1,
            cols: c.hidden_dim,
        },
    ]
}

/// The commands of one expert, the `e`-th whose bytes were read.
pub open spec fn expert_commands(
    l: ExpertLayout,
    hidden: usize,
    inter: usize,
    e: int,
) -> Seq<Command> {
    seq![
        Command::ExpertMatVec {
            expert: Slot::Expert(e as usize),
            words: l.gate_w_off,
            scales: l.gate_s_off,
            biases: l.gate_b_off,
            x: Slot::Input,
            out: Slot::ExpertGate,
            rows: inter,
            cols: hidden,
        },
        Command::ExpertMatVec {
            expert: Slot::Expert(e as usize),
            words: l.up_w_off,
            scales: l.up_s_off,
            biases: l.up_b_off,
            x: Slot::Input,
            out: Slot::ExpertUp,
            rows: inter,
            cols: hidden,
        },
        Command::Swiglu {
            gate: Slot::ExpertGate,
            up: Slot::ExpertUp,
            out: Slot::ExpertAct,
            n: inter,
        },
        Command::ExpertMatVec {
            expert: Slot::Expert(e as usize),
            words: l.down_w_off,
            scales: l.down_s_off,
            biases: l.down_b_off,
            x: Slot::ExpertAct,
            out: Slot::ExpertOut(e as usize),
            rows: hidden,
            cols: inter,
        },
    ]
}

/// The commands of the first `n` experts, one expert after the other.
pub open spec fn experts_commands(
    l: ExpertLayout,
    hidden: usize,
    inter: usize,
    n: int,
) -> Seq<Command>
    decreases n,
{
    if n <= 0 {
        Seq::empty()
    } else {
        experts_commands(l, hidden, inter, n - 1) + expert_commands(l, hidden, inter, n - 1)
    }
}

/// The commands of the chosen experts whose bytes were read.
pub fn experts_pass(n: usize, l: &ExpertLayout, hidden_dim: usize, inter: usize) -> (r: Vec<Command>)
    ensures
        r@ == experts_commands(*l, hidden_dim, inter, n as int),
{
    let mut out: Vec<Command> = Vec::new();
    for e in 0..n
        invariant
            out@ == experts_commands(*l, hidden_dim, inter, e as int),
    {
        let ghost before = out@;
        out.push(
            Command::ExpertMatVec {
                expert: Slot::Expert(e),
                words: l.gate_w_off,
                scales: l.gate_s_off,
                biases: l.gate_b_off,
                x: Slot::Input,
                out: Slot::ExpertGate,
                rows: inter,
                cols: hidden_dim,
            },
        );
        out.push(
            Command::ExpertMatVec {
                expert: Slot::Expert(e),
                words: l.up_w_off,
                scales: l.up_s_off,
                biases: l.up_b_off,
                x: Slot::Input,
                out: Slot::ExpertUp,
                rows: inter,
                cols: hidden_dim,
            },
        );
        out.push(
            Command::Swiglu {
                gate: Slot::ExpertGate,
                up: Slot::ExpertUp,
                out: Slot::ExpertAct,
                n: inter,
            },
        );
        out.push(
            Command::ExpertMatVec {
                expert: Slot::Expert(e),
                words: l.down_w_off,
                scales: l.down_s_off,
                biases: l.down_b_off,
                x: Slot::ExpertAct,
                out: Slot::ExpertOut(e),
                rows: hidden_dim,
                cols: inter,
            },
        );
        assert(out@ =~= before + expert_commands(*l, hidden_dim, inter, e as int));
    }
    out
}

/// A command reads a buffer.
pub open spec fn reads_slot(c: Command, s: Slot) -> bool {
    match c {
        Command::MatVec { matrix, x, out, rows, cols } => s == Slot::Weights || s == x,
        Command::ExpertMatVec { expert, words, scales, biases, x, out, rows, cols } => s == expert
            || s == x,
        Command::Swiglu { gate, up, out, n } => s == gate || s == up,
        Command::Convolve { state, x, weight, out, n } => s == state || s == x || s == weight.slot,
        Command::NormQk { q, k, heads, dim, scale } => s == q.slot || s == k.slot,
        Command::DecayBeta { alpha, beta, a_log, dt_bias, decay, beta_gate, heads } => s == alpha
            || s == beta || s == a_log.slot || s == dt_bias.slot,
        Command::DeltaStep {
            state,
            q,
            k,
            v,
            decay,
            beta_gate,
            out,
            v_heads,
            v_heads_per_k,
            key_dim,
            value_dim,
        } => s == state || s == q.slot || s == k.slot || s == v.slot || s == decay || s
            == beta_gate,
        Command::GatedNorm { x, z, weight, out, heads, dim } => s == x || s == z || s
            == weight.slot,
        Command::AddResidual { x, residual, out, n, groups, threads } => s == x || s == residual,
    }
}

/// A command writes a buffer.
pub open spec fn writes_slot(c: Command, s: Slot) -> bool {
    match c {
        Command::MatVec { matrix, x, out, rows, cols } => s == out,
        Command::ExpertMatVec { expert, words, scales, biases, x, out, rows, cols } => s == out,
        Command::Swiglu { gate, up, out, n } => s == out,
        Command::Convolve { state, x, weight, out, n } => s == state || s == out,
        Command::NormQk { q, k, heads, dim, scale } => s == q.slot || s == k.slot,
        Command::DecayBeta { alpha, beta, a_log, dt_bias, decay, beta_gate, heads } => s == decay
            || s == beta_gate,
        Command::DeltaStep {
            state,
            q,
            k,
            v,
            decay,
            beta_gate,
            out,
            v_heads,
            v_heads_per_k,
            key_dim,
            value_dim,
        } => s == state || s == out,
        Command::GatedNorm { x, z, weight, out, heads, dim } => s == out,
        Command::AddResidual { x, residual, out, n, groups, threads } => s == out,
    }
}

/// One of the first `n` passes writes a buffer.
pub open spec fn written(passes: Seq<Seq<Command>>, n: int, s: Slot) -> bool {
    exists|i: int, j: int|
        0 <= i < n && 0 <= j < passes[i].len() && writes_slot(#[trigger] passes[i][j], s)
}

/// What the device holds before a linear layer is run in one go.
pub open spec fn held_before(linear_idx: usize, s: Slot) -> bool {
    s == Slot::Weights || s == Slot::Input || s == Slot::Residual || s == Slot::ConvState(
        linear_idx,
    ) || s == Slot::DeltaState(linear_idx)
}

/// A linear layer run in one go, with the weights of its convolution and of its norm, reads no
/// buffer but those that the device holds beforehand and those that an earlier pass has written.
pub proof fn law_passes_in_order(
    d: LinDims,
    hidden: usize,
    linear_idx: usize,
    scale: F32,
    w: LinearPlaces,
    i: int,
    j: int,
    s: Slot,
)
    requires
        w.conv is Some,
        w.norm is Some,
        0 <= i < fused_passes(d, hidden, linear_idx, scale, w).len(),
        0 <= j < fused_passes(d, hidden, linear_idx, scale, w)[i].len(),
        reads_slot(fused_passes(d, hidden, linear_idx, scale, w)[i][j], s),
    ensures
        held_before(linear_idx, s) || written(
            fused_passes(d, hidden, linear_idx, scale, w),
            i,
            s,
        ),
{
    let p = fused_passes(d, hidden, linear_idx, scale, w);
    assert(p.len() == 8);
    assert(p[0] =~= linear_projections(d, hidden));
    assert(writes_slot(p[0][0], Slot::Batch(0)));
    assert(writes_slot(p[0][1], Slot::Batch(1)));
    assert(writes_slot(p[0][2], Slot::Batch(2)));
    assert(writes_slot(p[0][3], Slot::Batch(3)));
    assert(p[1] =~= seq![convolve(d, linear_idx, w.conv->0)]);
    assert(writes_slot(p[1][0], Slot::ConvOut));
    assert(p[2] =~= seq![norm_joined(d, scale)]);
    assert(p[3] =~= seq![decay_beta(d, w)]);
    assert(writes_slot(p[3][0], Slot::Decay));
    assert(writes_slot(p[3][0], Slot::BetaGate));
    assert(p[4] =~= seq![delta_joined(d, linear_idx)]);
    assert(writes_slot(p[4][0], Slot::DeltaOut));
    assert(p[5] =~= gated_norm(d, norm_place(w)));
    assert(writes_slot(p[5][0], Slot::Gated));
    assert(p[6] =~= seq![linear_out(d, hidden)]);
    assert(writes_slot(p[6][0], Slot::Projected));
    assert(p[7] =~= seq![add_residual(hidden)]);
    if i > 0 {
        assert(j == 0);
    }
}

/// The experts' outputs do not overwrite each other, and every command of an expert uses that
/// expert's bytes only.
#[verifier::spinoff_prover]
pub proof fn law_experts_apart(l: ExpertLayout, hidden: usize, inter: usize, n: int, m: int)
    requires
        0 <= n <= usize::MAX,
        0 <= m < n,
    ensures
        experts_commands(l, hidden, inter, n).len() == 4 * n,
        experts_commands(l, hidden, inter, n).subrange(4 * m, 4 * m + 4) == expert_commands(
            l,
            hidden,
            inter,
            m,
        ),
        forall|k: int|
            0 <= k < 4 * n && writes_slot(
                #[trigger] experts_commands(l, hidden, inter, n)[k],
                Slot::ExpertOut(m as usize),
            ) <==> k == 4 * m + 3,
{
    let all = experts_commands(l, hidden, inter, n);
    lemma_experts_len(l, hidden, inter, n);
    assert(all.subrange(4 * m, 4 * m + 4) =~= expert_commands(l, hidden, inter, m)) by {
        assert forall|k: int| 0 <= k < 4 implies all[4 * m + k] == #[trigger] expert_commands(
            l,
            hidden,
            inter,
            m,
        )[k] by {
            lemma_experts_at(l, hidden, inter, n, 4 * m + k);
        }
    }
    assert forall|k: int|
        0 <= k < 4 * n && writes_slot(#[trigger] all[k], Slot::ExpertOut(m as usize)) <==> k == 4
            * m + 3 by {
        if 0 <= k < 4 * n {
            lemma_experts_at(l, hidden, inter, n, k);
            lemma_expert_writes(l, hidden, inter, k / 4, k % 4, m);
        }
    }
}

/// Of an expert's commands, the last writes its output, and none writes that of another.
proof fn lemma_expert_writes(
    l: ExpertLayout,
    hidden: usize,
    inter: usize,
    e: int,
    j: int,
    m: int,
)
    requires
        0 <= e <= usize::MAX,
        0 <= m <= usize::MAX,
        0 <= j < 4,
    ensures
        writes_slot(expert_commands(l, hidden, inter, e)[j], Slot::ExpertOut(m as usize)) <==> j
            == 3 && e == m,
{
}

proof fn lemma_experts_len(l: ExpertLayout, hidden: usize, inter: usize, n: int)
    requires
        0 <= n,
    ensures
        experts_commands(l, hidden, inter, n).len() == 4 * n,
    decreases n,
{
    if n > 0 {
        lemma_experts_len(l, hidden, inter, n - 1);
    }
}

proof fn lemma_experts_at(l: ExpertLayout, hidden: usize, inter: usize, n: int, k: int)
    requires
        0 <= k < 4 * n,
    ensures
        experts_commands(l, hidden, inter, n)[k] == expert_commands(l, hidden, inter, k / 4)[k % 4],
        0 <= k / 4 < n,
        k == 4 * (k / 4) + k % 4,
    decreases n,
{
    lemma_experts_len(l, hidden, inter, n - 1);
    if k < 4 * (n - 1) {
        lemma_experts_at(l, hidden, inter, n - 1, k);
    } else {
        assert(k / 4 == n - 1 && k % 4 == k - 4 * (n - 1));
    }
}

/// After a layer was run in one go, the host remembers the two older inputs of the convolution as
/// they are after any new one, and the newest, which it does not know, is zero.
pub proof fn law_forget_newest(state: Seq<F32>, x: Seq<F32>)
    requires
        state.len() == 3 * x.len(),
    ensures
        ({
            let (r, n) = (conv_forgotten(state, x.len() as int), x.len() as int);
            &&& r.len() == state.len()
            &&& r.subrange(0, 2 * n) == (state.skip(n) + x).subrange(0, 2 * n)
            &&& forall|i: int| 2 * n <= i < 3 * n ==> #[trigger] r[i] == zero()
        }),
{
    let (r, n) = (conv_forgotten(state, x.len() as int), x.len() as int);
    assert(r.subrange(0, 2 * n) =~= (state.skip(n) + x).subrange(0, 2 * n));
}

/// Decay and learning rates of a linear layer in one go: logarithms and offsets are read from the
/// weight file where they lie there; in place of missing logarithms stands the vector that the
/// decay is computed from, and in place of missing offsets the one of the learning rates.
pub proof fn law_stand_ins(d: LinDims, w: LinearPlaces)
    ensures
        decay_beta(d, w) matches Command::DecayBeta { alpha, beta, a_log, dt_bias, heads, .. } && {
            &&& heads == d.num_v_heads
            &&& alpha == Slot::Batch(3)
            &&& beta == Slot::Batch(2)
            &&& w.a_log matches Some(o) ==> a_log.slot == Slot::Weights && a_log.offset == o
            &&& w.a_log is None ==> a_log.slot == alpha && a_log.offset == 0
            &&& w.dt_bias matches Some(o) ==> dt_bias.slot == Slot::Weights && dt_bias.offset == o
            &&& w.dt_bias is None ==> dt_bias.slot == beta && dt_bias.offset == 0
        },
{
}

} // verus!
