//! What the commands for a graphics device do: run on buffers, they leave the same numbers as the
//! host computes.

use crate::attention::AttnDims;
use crate::bf16::of_bf16;
use crate::bytes::{u16_at, u32_at};
use crate::cache::Recurrence;
use crate::config::{ExpertLayout, ModelConfig};
use crate::constants::rms_norm_eps;
use crate::device::{
    Command, LinearPlaces, Place, Projection, Slot, attention_commands, delta_joined,
    expert_commands, experts_commands, fused_passes, linear_projections, projection_text,
    recurrence_commands, router_commands,
};
use crate::float::{Arith, F32, fadd, fdiv, fexp, ffrom_int, fln, fmul, fneg, fsqrt, fsub, one};
use crate::grid::lemma_cell;
use crate::int4::table_fits;
use crate::linear::{
    LinDims, TokenParts, after_linear, conv_step, decay_of, heads_scaled, lin_output, next_state,
    shifted,
    ssm_next, ssm_read, token_parts,
};
use crate::linear_laws::{
    law_convolution, law_delta_rule, law_head_output, lemma_gated_len, lemma_head_sizes,
    lemma_ssm_len, parts_ready,
};
use crate::math::{SumOrder, fsilu, sum_of};
use crate::moe::{expert_out, layout_fits};
use crate::moe_laws::{law_expert, matrix_at};
use crate::weights::{
    Weights, f32s_of, in_layer, lemma_same_product, product, projected, u16s_of,
};
use vstd::prelude::*;

verus! {

/// What a device holds: numbers, and bytes as they came from files.
pub struct Buffers {
    pub nums: Map<Slot, Seq<F32>>,
    pub raw: Map<Slot, Seq<u8>>,
}

impl Buffers {
    /// The buffers after numbers were written to one of them.
    pub open spec fn with(self, s: Slot, x: Seq<F32>) -> Buffers {
        Buffers { nums: self.nums.insert(s, x), ..self }
    }

    /// The `n` numbers at a place.
    pub open spec fn part(self, p: Place, n: int) -> Seq<F32> {
        self.nums[p.slot].subrange(p.offset as int / 4, p.offset as int / 4 + n)
    }

    /// The buffers after numbers were written at a place.
    pub open spec fn put(self, p: Place, x: Seq<F32>) -> Buffers {
        let (old_nums, at) = (self.nums[p.slot], p.offset as int / 4);
        self.with(
            p.slot,
            Seq::new(
                old_nums.len(),
                |i: int|
                    if at <= i < at + x.len() {
                        x[i - at]
                    } else {
                        old_nums[i]
                    },
            ),
        )
    }

    /// Number `i` of a list of short numbers at a place.
    pub open spec fn short_at(self, p: Place, i: int) -> u16 {
        u16_at(self.raw[p.slot], p.offset + 2 * i)
    }

    /// Number `i` of a list of numbers in bytes at a place.
    pub open spec fn number_at(self, p: Place, i: int) -> F32 {
        F32 { bits: u32_at(self.raw[p.slot], p.offset + 4 * i) }
    }
}

/// The matrices of all heads after a token, number by number.
pub open spec fn delta_state<A: Arith>(
    state: Seq<F32>,
    k: Seq<F32>,
    v: Seq<F32>,
    keep: Seq<F32>,
    learn: Seq<F32>,
    heads: int,
    per: int,
    kd: int,
    vd: int,
) -> Seq<F32> {
    Seq::new(
        state.len(),
        |j: int|
            {
                let (vh, i, c) = (j / (vd * kd), j % (vd * kd) / kd, j % (vd * kd) % kd);
                let (row, key) = (vh * (vd * kd) + i * kd, vh / per * kd);
                let recalled = sum_of::<A>(
                    Seq::new(
                        kd as nat,
                        |e: int| fmul::<A>(fmul::<A>(state[row + e], keep[vh]), k[key + e]),
                    ),
                    SumOrder::LeftToRight,
                );
                let step = fmul::<A>(fsub::<A>(v[vh * vd + i], recalled), learn[vh]);
                if j < heads * (vd * kd) {
                    fadd::<A>(fmul::<A>(state[row + c], keep[vh]), fmul::<A>(k[key + c], step))
                } else {
                    state[j]
                }
            },
    )
}

/// What the heads read from their matrices, number by number.
pub open spec fn delta_read<A: Arith>(
    after: Seq<F32>,
    q: Seq<F32>,
    heads: int,
    per: int,
    kd: int,
    vd: int,
) -> Seq<F32> {
    Seq::new(
        (heads * vd) as nat,
        |m: int|
            sum_of::<A>(
                Seq::new(
                    kd as nat,
                    |c: int|
                        fmul::<A>(
                            after[m / vd * (vd * kd) + m % vd * kd + c],
                            q[m / vd / per * kd + c],
                        ),
                ),
                SumOrder::LeftToRight,
            ),
    )
}

/// The numbers of heads over their root mean squares, weighted, and scaled by the activation of
/// their gates.
pub open spec fn gated_heads<A: Arith>(
    x: Seq<F32>,
    z: Seq<F32>,
    w: spec_fn(int) -> u16,
    heads: int,
    dim: int,
) -> Seq<F32> {
    Seq::new(
        (heads * dim) as nat,
        |m: int|
            {
                let from = m / dim * dim;
                let inv = fdiv::<A>(
                    one(),
                    fsqrt::<A>(
                        fadd::<A>(
                            fdiv::<A>(
                                sum_of::<A>(
                                    Seq::new(
                                        dim as nat,
                                        |e: int| fmul::<A>(x[from + e], x[from + e]),
                                    ),
                                    SumOrder::LeftToRight,
                                ),
                                ffrom_int::<A>(dim as i64),
                            ),
                            rms_norm_eps(),
                        ),
                    ),
                );
                fmul::<A>(
                    fmul::<A>(fmul::<A>(x[m], inv), of_bf16(w(m % dim))),
                    fsilu::<A>(z[m]),
                )
            },
    )
}

/// The buffers after one command.
pub open spec fn step<A: Arith>(ws: Weights, layer: int, b: Buffers, c: Command) -> Buffers {
    match c {
        Command::MatVec { matrix, x, out, rows, cols } => b.with(
            out,
            projected::<A>(
                ws,
                projection_text(layer, matrix),
                b.nums[x].take(cols as int),
                rows as int,
            ),
        ),
        Command::ExpertMatVec { expert, words, scales, biases, x, out, rows, cols } => b.with(
            out,
            product::<A>(
                matrix_at(
                    b.raw[expert],
                    (words as int, rows * (cols as int / 8) * 4),
                    (scales as int, rows * (cols as int / 64) * 2),
                    (biases as int, rows * (cols as int / 64) * 2),
                ),
                b.nums[x].take(cols as int),
                rows as int,
            ),
        ),
        Command::Swiglu { gate, up, out, n } => b.with(
            out,
            Seq::new(
                n as nat,
                |i: int| fmul::<A>(fsilu::<A>(b.nums[gate][i]), b.nums[up][i]),
            ),
        ),
        Command::Convolve { state, x, weight, out, n } => {
            let (s, v) = (b.nums[state], b.nums[x].take(n as int));
            let w = Seq::new((4 * n) as nat, |i: int| b.short_at(weight, i));
            b.with(out, conv_step::<A>(s, v, w, 4)).with(state, shifted(s, v))
        },
        Command::NormQk { q, k, heads, dim, scale } => {
            let n = heads * dim;
            let a = b.put(
                q,
                heads_scaled::<A>(
                    b.part(q, n),
                    heads as int,
                    dim as int,
                    fmul::<A>(scale, scale),
                    SumOrder::LeftToRight,
                ),
            );
            a.put(
                k,
                heads_scaled::<A>(
                    a.part(k, n),
                    heads as int,
                    dim as int,
                    scale,
                    SumOrder::LeftToRight,
                ),
            )
        },
        Command::DecayBeta { alpha, beta, a_log, dt_bias, decay, beta_gate, heads } => b.with(
            decay,
            Seq::new(
                heads as nat,
                |h: int|
                    fexp::<A>(
                        fmul::<A>(
                            fneg(fexp::<A>(b.number_at(a_log, h))),
                            fln::<A>(
                                fadd::<A>(
                                    one(),
                                    fexp::<A>(
                                        fadd::<A>(
                                            b.nums[alpha][h],
                                            of_bf16(b.short_at(dt_bias, h)),
                                        ),
                                    ),
                                ),
                            ),
                        ),
                    ),
            ),
        ).with(
            beta_gate,
            Seq::new(
                heads as nat,
                |h: int|
                    fdiv::<A>(one(), fadd::<A>(one(), fexp::<A>(fneg(b.nums[beta][h])))),
            ),
        ),
        Command::DeltaStep {
            state,
            q,
            k,
            v,
            decay,
            beta_gate,
            out,
            v_heads,
            v_heads_per_k,
            key_dim,
            value_dim,
        } => {
            let keys = v_heads as int / v_heads_per_k as int * key_dim;
            let after = delta_state::<A>(
                b.nums[state],
                b.part(k, keys),
                b.part(v, v_heads * value_dim),
                b.nums[decay],
                b.nums[beta_gate],
                v_heads as int,
                v_heads_per_k as int,
                key_dim as int,
                value_dim as int,
            );
            b.with(state, after).with(
                out,
                delta_read::<A>(
                    after,
                    b.part(q, keys),
                    v_heads as int,
                    v_heads_per_k as int,
                    key_dim as int,
                    value_dim as int,
                ),
            )
        },
        Command::GatedNorm { x, z, weight, out, heads, dim } => b.with(
            out,
            gated_heads::<A>(
                b.nums[x],
                b.nums[z],
                |i: int| b.short_at(weight, i),
                heads as int,
                dim as int,
            ),
        ),
        Command::AddResidual { x, residual, out, n, groups, threads } => b.with(
            out,
            Seq::new(
                (if n <= groups * threads {
                    n as int
                } else {
                    groups * threads
                }) as nat,
                |i: int| fadd::<A>(b.nums[residual][i], b.nums[x][i]),
            ),
        ),
    }
}

/// The buffers after commands, one after the other.
pub open spec fn run<A: Arith>(ws: Weights, layer: int, b: Buffers, c: Seq<Command>) -> Buffers
    decreases c.len(),
{
    if c.len() == 0 {
        b
    } else {
        step::<A>(ws, layer, run::<A>(ws, layer, b, c.drop_last()), c.last())
    }
}

/// The buffers after passes, one after the other.
pub open spec fn run_passes<A: Arith>(
    ws: Weights,
    layer: int,
    b: Buffers,
    p: Seq<Seq<Command>>,
) -> Buffers
    decreases p.len(),
{
    if p.len() == 0 {
        b
    } else {
        run::<A>(ws, layer, run_passes::<A>(ws, layer, b, p.drop_last()), p.last())
    }
}

proof fn lemma_run_push<A: Arith>(ws: Weights, layer: int, b: Buffers, c: Seq<Command>, x: Command)
    ensures
        run::<A>(ws, layer, b, c.push(x)) == step::<A>(ws, layer, run::<A>(ws, layer, b, c), x),
{
    assert(c.push(x).drop_last() =~= c);
}

proof fn lemma_run_four<A: Arith>(
    ws: Weights,
    layer: int,
    b: Buffers,
    before: Seq<Command>,
    c: Seq<Command>,
)
    requires
        c.len() == 4,
    ensures
        run::<A>(ws, layer, b, before + c) == step::<A>(
            ws,
            layer,
            step::<A>(
                ws,
                layer,
                step::<A>(
                    ws,
                    layer,
                    step::<A>(ws, layer, run::<A>(ws, layer, b, before), c[0]),
                    c[1],
                ),
                c[2],
            ),
            c[3],
        ),
{
    lemma_run_push::<A>(ws, layer, b, before, c[0]);
    lemma_run_push::<A>(ws, layer, b, before.push(c[0]), c[1]);
    lemma_run_push::<A>(ws, layer, b, before.push(c[0]).push(c[1]), c[2]);
    lemma_run_push::<A>(ws, layer, b, before.push(c[0]).push(c[1]).push(c[2]), c[3]);
    assert(before + c =~= before.push(c[0]).push(c[1]).push(c[2]).push(c[3]));
}

/// The projections of full attention: queries with their gates, keys and values, each by its own
/// matrix, from the vector that came in.
pub proof fn law_attention_pass<A: Arith>(
    ws: Weights,
    layer: int,
    b: Buffers,
    d: AttnDims,
    x: Seq<F32>,
)
    requires
        x.len() <= usize::MAX,
        b.nums[Slot::Input] == x,
        d.num_attn_heads * (2 * d.head_dim) <= usize::MAX,
        d.num_kv_heads * d.head_dim <= usize::MAX,
    ensures
        ({
            let e = run::<A>(ws, layer, b, attention_commands(d, x.len() as usize));
            let of = |rest: Seq<char>, rows: int|
                projected::<A>(ws, in_layer(layer, rest), x, rows);
            &&& e.nums[Slot::Batch(0)] == of(
                ".self_attn.q_proj"@,
                d.num_attn_heads * (2 * d.head_dim),
            )
            &&& e.nums[Slot::Batch(1)] == of(".self_attn.k_proj"@, d.num_kv_heads * d.head_dim)
            &&& e.nums[Slot::Batch(2)] == of(".self_attn.v_proj"@, d.num_kv_heads * d.head_dim)
        }),
{
    let c = attention_commands(d, x.len() as usize);
    let none = Seq::<Command>::empty();
    lemma_run_push::<A>(ws, layer, b, none, c[0]);
    lemma_run_push::<A>(ws, layer, b, none.push(c[0]), c[1]);
    lemma_run_push::<A>(ws, layer, b, none.push(c[0]).push(c[1]), c[2]);
    assert(c =~= none.push(c[0]).push(c[1]).push(c[2]));
    assert(x.take(x.len() as int) =~= x);
    let (n, h) = (d.num_attn_heads as int, d.head_dim as int);
    assert(2 * (n * h) == n * (2 * h)) by (nonlinear_arith);
}

/// The projections of a linear layer, each by its own matrix, from the vector that came in.
pub proof fn law_linear_pass<A: Arith>(
    ws: Weights,
    layer: int,
    b: Buffers,
    d: LinDims,
    x: Seq<F32>,
)
    requires
        x.len() <= usize::MAX,
        b.nums[Slot::Input] == x,
    ensures
        ({
            let e = run::<A>(ws, layer, b, linear_projections(d, x.len() as usize));
            let of = |rest: Seq<char>, rows: int|
                projected::<A>(ws, in_layer(layer, rest), x, rows);
            &&& e.nums[Slot::Batch(0)] == of(".linear_attn.in_proj_qkv"@, d.qkv_dim as int)
            &&& e.nums[Slot::Batch(1)] == of(".linear_attn.in_proj_z"@, d.total_value as int)
            &&& e.nums[Slot::Batch(2)] == of(".linear_attn.in_proj_b"@, d.num_v_heads as int)
            &&& e.nums[Slot::Batch(3)] == of(".linear_attn.in_proj_a"@, d.num_v_heads as int)
            &&& e.raw == b.raw
            &&& forall|s: Slot| !(s is Batch) ==> #[trigger] e.nums[s] == b.nums[s]
        }),
{
    let c = linear_projections(d, x.len() as usize);
    let none = Seq::<Command>::empty();
    lemma_run_four::<A>(ws, layer, b, none, c);
    assert(none + c =~= c);
    assert(x.take(x.len() as int) =~= x);
}

/// The projections before the experts, each by its own matrix, from the vector that came in: the
/// router's scores, the two projections of the shared expert, and its score.
pub proof fn law_router_pass<A: Arith>(
    ws: Weights,
    layer: int,
    b: Buffers,
    c: ModelConfig,
    x: Seq<F32>,
)
    requires
        x.len() == c.hidden_dim,
        b.nums[Slot::Input] == x,
    ensures
        ({
            let e = run::<A>(ws, layer, b, router_commands(c));
            let of = |rest: Seq<char>, rows: int|
                projected::<A>(ws, in_layer(layer, rest), x, rows);
            &&& e.nums[Slot::Batch(0)] == of(".mlp.gate"@, c.num_experts as int)
            &&& e.nums[Slot::Batch(1)] == of(
                ".mlp.shared_expert.gate_proj"@,
                c.shared_intermediate as int,
            )
            &&& e.nums[Slot::Batch(2)] == of(
                ".mlp.shared_expert.up_proj"@,
                c.shared_intermediate as int,
            )
            &&& e.nums[Slot::Batch(3)] == of(".mlp.shared_expert_gate"@, 1)
        }),
{
    let none = Seq::<Command>::empty();
    lemma_run_four::<A>(ws, layer, b, none, router_commands(c));
    assert(none + router_commands(c) =~= router_commands(c));
    assert(x.take(x.len() as int) =~= x);
}

/// The name of each projection is that of the matrix that the host multiplies with.
pub proof fn law_projection_names(layer: int)
    ensures
        projection_text(layer, Projection::LinearOut) == in_layer(
            layer,
            ".linear_attn.out_proj"@,
        ),
        projection_text(layer, Projection::AttnOut) == in_layer(layer, ".self_attn.o_proj"@),
        projection_text(layer, Projection::SharedDown) == in_layer(
            layer,
            ".mlp.shared_expert.down_proj"@,
        ),
        projection_text(layer, Projection::Head) == "lm_head"@,
{
}

proof fn lemma_expert_product<A: Arith>(
    raw: Seq<u8>,
    words: int,
    words_size: int,
    scales: int,
    scales_size: int,
    biases: int,
    biases_size: int,
    x: Seq<F32>,
    rows: int,
)
    requires
        0 <= rows,
        0 <= words_size,
        0 <= scales_size,
        0 <= biases_size,
        table_fits(words_size / 4, scales_size / 2, biases_size / 2, rows, x.len() as int, 64),
    ensures
        product::<A>(
            matrix_at(
                raw,
                (words, rows * (x.len() as int / 8) * 4),
                (scales, rows * (x.len() as int / 64) * 2),
                (biases, rows * (x.len() as int / 64) * 2),
            ),
            x,
            rows,
        ) == product::<A>(
            matrix_at(raw, (words, words_size), (scales, scales_size), (biases, biases_size)),
            x,
            rows,
        ),
{
    let (wpr, groups) = (x.len() as int / 8, x.len() as int / 64);
    let m = matrix_at(
        raw,
        (words, rows * wpr * 4),
        (scales, rows * groups * 2),
        (biases, rows * groups * 2),
    );
    let n = matrix_at(raw, (words, words_size), (scales, scales_size), (biases, biases_size));
    assert(rows * wpr >= 0 && rows * groups >= 0) by (nonlinear_arith)
        requires
            rows >= 0,
            wpr >= 0,
            groups >= 0,
    ;
    assert(m.w.len() == rows * wpr && m.s.len() == rows * groups && m.b.len() == rows * groups);
    assert(groups * 8 <= wpr);
    if rows > 0 {
        lemma_cell(rows - 1, rows, wpr);
    }
    lemma_same_product::<A>(m, n, x, rows);
}

proof fn lemma_one_expert<A: Arith>(
    ws: Weights,
    layer: int,
    b: Buffers,
    l: ExpertLayout,
    x: Seq<F32>,
    inter: usize,
    e: int,
)
    requires
        0 <= e <= usize::MAX,
        x.len() <= usize::MAX,
        b.nums[Slot::Input] == x,
        layout_fits(
            l,
            b.raw[Slot::Expert(e as usize)].len() as int,
            x.len() as int,
            inter as int,
        ),
    ensures
        ({
            let c = expert_commands(l, x.len() as usize, inter, e);
            let r = step::<A>(
                ws,
                layer,
                step::<A>(
                    ws,
                    layer,
                    step::<A>(ws, layer, step::<A>(ws, layer, b, c[0]), c[1]),
                    c[2],
                ),
                c[3],
            );
            &&& r.raw == b.raw
            &&& r.nums[Slot::Input] == x
            &&& r.nums[Slot::ExpertOut(e as usize)] == expert_out::<A>(
                b.raw[Slot::Expert(e as usize)],
                l,
                x,
                inter as int,
            )
            &&& forall|m: usize|
                m != e ==> #[trigger] r.nums[Slot::ExpertOut(m)] == b.nums[Slot::ExpertOut(m)]
        }),
{
    let raw = b.raw[Slot::Expert(e as usize)];
    let hidden = x.len() as int;
    let c = expert_commands(l, x.len() as usize, inter, e);
    assert(x.take(hidden) =~= x);
    lemma_expert_product::<A>(
        raw,
        l.gate_w_off as int,
        l.gate_w_size as int,
        l.gate_s_off as int,
        l.gate_s_size as int,
        l.gate_b_off as int,
        l.gate_b_size as int,
        x,
        inter as int,
    );
    lemma_expert_product::<A>(
        raw,
        l.up_w_off as int,
        l.up_w_size as int,
        l.up_s_off as int,
        l.up_s_size as int,
        l.up_b_off as int,
        l.up_b_size as int,
        x,
        inter as int,
    );
    let b1 = step::<A>(ws, layer, b, c[0]);
    let b2 = step::<A>(ws, layer, b1, c[1]);
    let b3 = step::<A>(ws, layer, b2, c[2]);
    let act = b3.nums[Slot::ExpertAct];
    assert(act.take(inter as int) =~= act);
    lemma_expert_product::<A>(
        raw,
        l.down_w_off as int,
        l.down_w_size as int,
        l.down_s_off as int,
        l.down_s_size as int,
        l.down_b_off as int,
        l.down_b_size as int,
        act,
        hidden,
    );
    law_expert::<A>(raw, l, x, inter as int);
    let (g, u) = (b2.nums[Slot::ExpertGate], b2.nums[Slot::ExpertUp]);
    assert(act =~= Seq::new(
        inter as nat,
        |j: int| fmul::<A>(fdiv::<A>(g[j], fadd::<A>(one(), fexp::<A>(fneg(g[j])))), u[j]),
    ));
}

/// The commands of the chosen experts leave, in the place of each, the output that the host
/// computes from the same bytes: the activation function runs on its gate projection.
pub proof fn law_experts_pass<A: Arith>(
    ws: Weights,
    layer: int,
    b: Buffers,
    l: ExpertLayout,
    x: Seq<F32>,
    inter: usize,
    n: int,
    m: int,
)
    requires
        0 <= m < n <= usize::MAX,
        x.len() <= usize::MAX,
        b.nums[Slot::Input] == x,
        forall|e: usize|
            e < n ==> layout_fits(
                l,
                (#[trigger] b.raw[Slot::Expert(e)]).len() as int,
                x.len() as int,
                inter as int,
            ),
    ensures
        run::<A>(
            ws,
            layer,
            b,
            experts_commands(l, x.len() as usize, inter, n),
        ).nums[Slot::ExpertOut(m as usize)] == expert_out::<A>(b.raw[Slot::Expert(m as usize)], l, x, inter as int),
        run::<A>(ws, layer, b, experts_commands(l, x.len() as usize, inter, n)).raw == b.raw,
        run::<A>(ws, layer, b, experts_commands(l, x.len() as usize, inter, n)).nums[Slot::Input]
            == x,
    decreases n,
{
    let before = experts_commands(l, x.len() as usize, inter, n - 1);
    let c = expert_commands(l, x.len() as usize, inter, n - 1);
    let b1 = run::<A>(ws, layer, b, before);
    if m < n - 1 {
        law_experts_pass::<A>(ws, layer, b, l, x, inter, n - 1, m);
    } else if n > 1 {
        law_experts_pass::<A>(ws, layer, b, l, x, inter, n - 1, 0);
    }
    assert(n == 1 ==> before =~= Seq::<Command>::empty());
    let own = b.raw[Slot::Expert((n - 1) as usize)];
    assert(layout_fits(l, own.len() as int, x.len() as int, inter as int));
    lemma_run_four::<A>(ws, layer, b, before, c);
    lemma_one_expert::<A>(ws, layer, b1, l, x, inter, n - 1);
}

/// The sizes of a linear layer whose heads fill their vectors: the key heads divide the value
/// heads, and queries, keys and values lie behind each other without a gap.
pub open spec fn even_heads(d: LinDims) -> bool {
    &&& d.fit()
    &&& d.num_v_heads as int % d.num_k_heads as int == 0
    &&& d.total_key == d.num_k_heads * d.key_dim()
    &&& d.total_value == d.num_v_heads * d.value_dim()
    &&& d.qkv_dim == 2 * d.total_key + d.total_value
}

proof fn lemma_even(d: LinDims)
    requires
        even_heads(d),
    ensures
        0 <= d.key_dim(),
        0 <= d.value_dim(),
        0 < d.num_v_heads as int / d.num_k_heads as int,
        d.num_v_heads as int / (d.num_v_heads as int / d.num_k_heads as int)
            == d.num_k_heads,
{
    let (v, k) = (d.num_v_heads as int, d.num_k_heads as int);
    vstd::arithmetic::div_mod::lemma_div_pos_is_pos(d.total_key as int, k);
    vstd::arithmetic::div_mod::lemma_div_pos_is_pos(d.total_value as int, v);
    vstd::arithmetic::div_mod::lemma_fundamental_div_mod(v, k);
    vstd::arithmetic::div_mod::lemma_div_non_zero(v, k);
    vstd::arithmetic::div_mod::lemma_fundamental_div_mod_converse(v, v / k, k, 0);
}

proof fn lemma_delta<A: Arith>(
    ws: Weights,
    layer: int,
    ssm: Seq<F32>,
    t: TokenParts,
    d: LinDims,
    v: Seq<F32>,
    keep: Seq<F32>,
    learn: Seq<F32>,
)
    requires
        parts_ready(ssm, t, d),
        forall|j: int| 0 <= j < d.num_v_heads * d.value_dim() ==> #[trigger] v[j] == t.v[j],
        forall|h: int|
            0 <= h < d.num_v_heads ==> #[trigger] keep[h] == decay_of::<A>(
                ws,
                layer,
                t.alpha,
                h,
            ),
        forall|h: int|
            0 <= h < d.num_v_heads ==> #[trigger] learn[h] == fdiv::<A>(
                one(),
                fadd::<A>(one(), fexp::<A>(fneg(t.beta[h]))),
            ),
    ensures
        delta_state::<A>(
            ssm,
            t.k,
            v,
            keep,
            learn,
            d.num_v_heads as int,
            d.num_v_heads as int / d.num_k_heads as int,
            d.key_dim(),
            d.value_dim(),
        ) == ssm_next::<A>(ws, layer, ssm, t, d),
        delta_read::<A>(
            ssm_next::<A>(ws, layer, ssm, t, d),
            t.q,
            d.num_v_heads as int,
            d.num_v_heads as int / d.num_k_heads as int,
            d.key_dim(),
            d.value_dim(),
        ) == ssm_read::<A>(ws, layer, ssm, t, d, d.num_v_heads as int),
{
    let (nv, kd, vd) = (d.num_v_heads as int, d.key_dim(), d.value_dim());
    let per = nv / d.num_k_heads as int;
    let size = vd * kd;
    let after = ssm_next::<A>(ws, layer, ssm, t, d);
    let read = ssm_read::<A>(ws, layer, ssm, t, d, nv);
    lemma_delta_sizes::<A>(ws, layer, ssm, t, d);
    let got = delta_state::<A>(ssm, t.k, v, keep, learn, nv, per, kd, vd);
    assert forall|j: int| 0 <= j < ssm.len() implies got[j] == after[j] by {
        if j < nv * size {
            let (vh, m) = (j / size, j % size);
            let (i, c) = (m / kd, m % kd);
            lemma_place(j, nv, vd, kd);
            law_delta_rule::<A>(ws, layer, ssm, t, d, vh, i);
            let row = vh * size + i * kd;
            assert(row + c == j);
            assert(keep[vh] == decay_of::<A>(ws, layer, t.alpha, vh));
            assert(v[vh * vd + i] == t.v[vh * vd + i]) by {
                lemma_cell(vh, nv, vd);
            }
            assert(after[row + c] == after[j]);
        } else {
            lemma_delta_rest::<A>(ws, layer, ssm, t, d, j);
        }
    }
    assert(got =~= after);
    let seen = delta_read::<A>(after, t.q, nv, per, kd, vd);
    assert forall|m: int| 0 <= m < nv * vd implies seen[m] == read[m] by {
        let (vh, i) = (m / vd, m % vd);
        vstd::arithmetic::div_mod::lemma_fundamental_div_mod(m, vd);
        assert(vd * vh == vh * vd) by (nonlinear_arith);
        vstd::arithmetic::div_mod::lemma_div_pos_is_pos(m, vd);
        vstd::arithmetic::mul::lemma_mul_is_commutative(nv, vd);
        vstd::arithmetic::div_mod::lemma_multiply_divide_lt(m, vd, nv);
        law_delta_rule::<A>(ws, layer, ssm, t, d, vh, i);
        let key = vh / per * kd;
        let row = vh * size + i * kd;
        assert(Seq::new(
            kd as nat,
            |c: int| fmul::<A>(after[m / vd * size + m % vd * kd + c], t.q[m / vd / per * kd + c]),
        ) =~= Seq::new(kd as nat, |c: int| fmul::<A>(after[row + c], t.q[key + c])));
    }
    assert(seen =~= read);
}

proof fn lemma_place(j: int, nv: int, vd: int, kd: int)
    requires
        0 <= j < nv * (vd * kd),
        0 <= vd,
        0 <= kd,
    ensures
        0 < vd,
        0 < kd,
        0 <= j / (vd * kd) < nv,
        0 <= j % (vd * kd) / kd < vd,
        0 <= j % (vd * kd) % kd < kd,
        j == j / (vd * kd) * (vd * kd) + j % (vd * kd) / kd * kd + j % (vd * kd) % kd,
{
    let size = vd * kd;
    assert(size > 0 && vd > 0 && kd > 0) by (nonlinear_arith)
        requires
            0 <= j < nv * size,
            size == vd * kd,
            0 <= vd,
            0 <= kd,
    ;
    let m = j % size;
    vstd::arithmetic::div_mod::lemma_fundamental_div_mod(j, size);
    vstd::arithmetic::div_mod::lemma_fundamental_div_mod(m, kd);
    vstd::arithmetic::div_mod::lemma_div_pos_is_pos(j, size);
    vstd::arithmetic::div_mod::lemma_div_pos_is_pos(m, kd);
    vstd::arithmetic::mul::lemma_mul_is_commutative(nv, size);
    vstd::arithmetic::div_mod::lemma_multiply_divide_lt(j, size, nv);
    vstd::arithmetic::mul::lemma_mul_is_commutative(vd, kd);
    vstd::arithmetic::div_mod::lemma_multiply_divide_lt(m, kd, vd);
    vstd::arithmetic::mul::lemma_mul_is_commutative(size, j / size);
    vstd::arithmetic::mul::lemma_mul_is_commutative(kd, m / kd);
}

proof fn lemma_delta_sizes<A: Arith>(
    ws: Weights,
    layer: int,
    ssm: Seq<F32>,
    t: TokenParts,
    d: LinDims,
)
    requires
        parts_ready(ssm, t, d),
    ensures
        0 <= d.key_dim(),
        0 <= d.value_dim(),
        ssm_next::<A>(ws, layer, ssm, t, d).len() == ssm.len(),
        ssm_read::<A>(ws, layer, ssm, t, d, d.num_v_heads as int).len() == d.num_v_heads
            * d.value_dim(),
{
    lemma_head_sizes(ssm, t, d, 0);
    lemma_ssm_len::<A>(ws, layer, ssm, t, d, d.num_v_heads as int);
}

proof fn lemma_delta_rest<A: Arith>(
    ws: Weights,
    layer: int,
    ssm: Seq<F32>,
    t: TokenParts,
    d: LinDims,
    j: int,
)
    requires
        parts_ready(ssm, t, d),
        d.num_v_heads * (d.value_dim() * d.key_dim()) <= j < ssm.len(),
    ensures
        ssm_next::<A>(ws, layer, ssm, t, d)[j] == ssm[j],
{
    lemma_ssm_len::<A>(ws, layer, ssm, t, d, d.num_v_heads as int);
}

proof fn lemma_gated_heads<A: Arith>(
    ws: Weights,
    layer: int,
    read: Seq<F32>,
    z: Seq<F32>,
    d: LinDims,
    w: spec_fn(int) -> u16,
)
    requires
        even_heads(d),
        read.len() == d.total_value,
        z.len() == d.total_value,
        u16s_of(ws, in_layer(layer, ".linear_attn.norm.weight"@)) matches Some(s) && forall|i: int|
            0 <= i < d.value_dim() ==> #[trigger] w(i) == s[i],
    ensures
        gated_heads::<A>(read, z, w, d.num_v_heads as int, d.value_dim()) == lin_output::<A>(
            ws,
            layer,
            read,
            z,
            d,
        ),
{
    lemma_even(d);
    let (nv, vd) = (d.num_v_heads as int, d.value_dim());
    let got = gated_heads::<A>(read, z, w, nv, vd);
    let want = lin_output::<A>(ws, layer, read, z, d);
    let s = u16s_of(ws, in_layer(layer, ".linear_attn.norm.weight"@))->0;
    lemma_gated_len::<A>(s, read, z, d, nv);
    assert(want.len() == d.total_value);
    assert forall|m: int| 0 <= m < nv * vd implies got[m] == want[m] by {
        let (vh, i) = (m / vd, m % vd);
        vstd::arithmetic::div_mod::lemma_fundamental_div_mod(m, vd);
        assert(vd * vh == vh * vd) by (nonlinear_arith);
        vstd::arithmetic::div_mod::lemma_div_pos_is_pos(m, vd);
        vstd::arithmetic::mul::lemma_mul_is_commutative(nv, vd);
        vstd::arithmetic::div_mod::lemma_multiply_divide_lt(m, vd, nv);
        law_head_output::<A>(ws, layer, read, z, d, vh, i);
        assert(w(i) == s[i]);
    }
    assert(got =~= want);
}

/// The small tensors of a linear layer lie at their places on the device.
pub open spec fn rates_at(
    ws: Weights,
    layer: int,
    b: Buffers,
    d: LinDims,
    a_log: Place,
    dt_bias: Place,
) -> bool {
    &&& f32s_of(ws, in_layer(layer, ".linear_attn.A_log"@)) matches Some(s) && forall|h: int|
        0 <= h < d.num_v_heads ==> #[trigger] b.number_at(a_log, h) == s[h]
    &&& u16s_of(ws, in_layer(layer, ".linear_attn.dt_bias"@)) matches Some(s) && forall|h: int|
        0 <= h < d.num_v_heads ==> #[trigger] b.short_at(dt_bias, h) == s[h]
}

/// The weights of a linear layer's norm lie at their place on the device.
pub open spec fn norm_at(ws: Weights, layer: int, b: Buffers, d: LinDims, p: Place) -> bool {
    u16s_of(ws, in_layer(layer, ".linear_attn.norm.weight"@)) matches Some(s) && forall|i: int|
        0 <= i < d.value_dim() ==> #[trigger] b.short_at(p, i) == s[i]
}

/// Where queries, keys and values of a token lie, and what they hold before their norm.
pub open spec fn parts_at(
    b: Buffers,
    x: Seq<F32>,
    d: LinDims,
    q: Place,
    k: Place,
    v: Place,
) -> bool {
    let (tk, tv) = (d.total_key as int, d.total_value as int);
    &&& q.offset as int / 4 + tk <= b.nums[q.slot].len()
    &&& k.offset as int / 4 + tk <= b.nums[k.slot].len()
    &&& v.offset as int / 4 + tv <= b.nums[v.slot].len()
    &&& b.part(q, tk) == x.subrange(0, tk)
    &&& b.part(k, tk) == x.subrange(tk, 2 * tk)
    &&& b.part(v, tv) == x.skip(2 * tk)
}

/// Places that do not overlap.
pub open spec fn places_apart(d: LinDims, q: Place, k: Place, v: Place) -> bool {
    let (tk, tv) = (d.total_key as int, d.total_value as int);
    &&& q.slot == k.slot ==> q.offset as int / 4 + tk <= k.offset as int / 4
    &&& q.slot == v.slot ==> q.offset as int / 4 + tk <= v.offset as int / 4
    &&& k.slot == v.slot ==> k.offset as int / 4 + tk <= v.offset as int / 4
    &&& is_vector(q.slot)
    &&& is_vector(k.slot)
    &&& is_vector(v.slot)
}

/// A buffer that holds queries, keys or values.
pub open spec fn is_vector(s: Slot) -> bool {
    s == Slot::ConvOut || s == Slot::Queries || s == Slot::Keys || s == Slot::Values
}

proof fn lemma_rates_stay(
    ws: Weights,
    layer: int,
    b: Buffers,
    e: Buffers,
    d: LinDims,
    a_log: Place,
    dt_bias: Place,
)
    requires
        rates_at(ws, layer, b, d, a_log, dt_bias),
        e.raw == b.raw,
    ensures
        rates_at(ws, layer, e, d, a_log, dt_bias),
{
    let s = f32s_of(ws, in_layer(layer, ".linear_attn.A_log"@))->0;
    assert forall|h: int| 0 <= h < d.num_v_heads implies #[trigger] e.number_at(a_log, h)
        == s[h] by {
        assert(b.number_at(a_log, h) == s[h]);
    }
    let r = u16s_of(ws, in_layer(layer, ".linear_attn.dt_bias"@))->0;
    assert forall|h: int| 0 <= h < d.num_v_heads implies #[trigger] e.short_at(dt_bias, h)
        == r[h] by {
        assert(b.short_at(dt_bias, h) == r[h]);
    }
}

proof fn lemma_norm_qk<A: Arith>(
    ws: Weights,
    layer: int,
    b: Buffers,
    x: Seq<F32>,
    alpha: Seq<F32>,
    beta: Seq<F32>,
    d: LinDims,
    q: Place,
    k: Place,
    v: Place,
    scale: F32,
)
    requires
        even_heads(d),
        x.len() == d.qkv_dim,
        parts_at(b, x, d, q, k, v),
        places_apart(d, q, k, v),
        scale == fdiv::<A>(one(), fsqrt::<A>(ffrom_int::<A>(d.key_dim() as i64))),
    ensures
        ({
            let c = Command::NormQk {
                q,
                k,
                heads: d.num_k_heads,
                dim: d.key_dim() as usize,
                scale,
            };
            let e = step::<A>(ws, layer, b, c);
            let t = token_parts::<A>(x, alpha, beta, d, SumOrder::LeftToRight);
            &&& e.part(q, d.total_key as int) == t.q
            &&& e.part(k, d.total_key as int) == t.k
            &&& e.part(v, d.total_value as int) == t.v
            &&& e.raw == b.raw
            &&& forall|s: Slot| !is_vector(s) ==> #[trigger] e.nums[s] == b.nums[s]
        }),
{
    lemma_even(d);
    let (tk, tv, order) = (d.total_key as int, d.total_value as int, SumOrder::LeftToRight);
    let t = token_parts::<A>(x, alpha, beta, d, order);
    let n = d.num_k_heads * (d.key_dim() as usize);
    assert(n == tk);
    let a = b.put(q, t.q);
    assert(a.part(q, tk) =~= t.q);
    assert(a.part(k, tk) =~= b.part(k, tk));
    assert(a.part(v, tv) =~= b.part(v, tv));
    let e = a.put(k, t.k);
    assert(e.part(q, tk) =~= a.part(q, tk));
    assert(e.part(k, tk) =~= t.k);
    assert(e.part(v, tv) =~= a.part(v, tv));
}

proof fn lemma_rates<A: Arith>(
    ws: Weights,
    layer: int,
    b: Buffers,
    d: LinDims,
    alpha: Seq<F32>,
    beta: Seq<F32>,
    a_log: Place,
    dt_bias: Place,
)
    requires
        b.nums[Slot::Batch(3)] == alpha,
        b.nums[Slot::Batch(2)] == beta,
        rates_at(ws, layer, b, d, a_log, dt_bias),
    ensures
        ({
            let c = Command::DecayBeta {
                alpha: Slot::Batch(3),
                beta: Slot::Batch(2),
                a_log,
                dt_bias,
                decay: Slot::Decay,
                beta_gate: Slot::BetaGate,
                heads: d.num_v_heads,
            };
            let e = step::<A>(ws, layer, b, c);
            &&& e.raw == b.raw
            &&& forall|s: Slot|
                s != Slot::Decay && s != Slot::BetaGate ==> #[trigger] e.nums[s] == b.nums[s]
            &&& forall|h: int|
                0 <= h < d.num_v_heads ==> #[trigger] e.nums[Slot::Decay][h] == decay_of::<A>(
                    ws,
                    layer,
                    alpha,
                    h,
                )
            &&& forall|h: int|
                0 <= h < d.num_v_heads ==> #[trigger] e.nums[Slot::BetaGate][h] == fdiv::<A>(
                    one(),
                    fadd::<A>(one(), fexp::<A>(fneg(beta[h]))),
                )
        }),
{
    assert forall|h: int| 0 <= h < d.num_v_heads implies b.number_at(a_log, h) == f32s_of(
        ws,
        in_layer(layer, ".linear_attn.A_log"@),
    )->0[h] && b.short_at(dt_bias, h) == u16s_of(
        ws,
        in_layer(layer, ".linear_attn.dt_bias"@),
    )->0[h] by {}
}

proof fn lemma_delta_step<A: Arith>(
    ws: Weights,
    layer: int,
    b: Buffers,
    t: TokenParts,
    d: LinDims,
    state: Slot,
    q: Place,
    k: Place,
    v: Place,
)
    requires
        even_heads(d),
        parts_ready(b.nums[state], t, d),
        state is DeltaState,
        t.v.len() == d.total_value,
        b.part(q, d.total_key as int) == t.q,
        b.part(k, d.total_key as int) == t.k,
        b.part(v, d.total_value as int) == t.v,
        forall|h: int|
            0 <= h < d.num_v_heads ==> #[trigger] b.nums[Slot::Decay][h] == decay_of::<A>(
                ws,
                layer,
                t.alpha,
                h,
            ),
        forall|h: int|
            0 <= h < d.num_v_heads ==> #[trigger] b.nums[Slot::BetaGate][h] == fdiv::<A>(
                one(),
                fadd::<A>(one(), fexp::<A>(fneg(t.beta[h]))),
            ),
    ensures
        ({
            let c = Command::DeltaStep {
                state,
                q,
                k,
                v,
                decay: Slot::Decay,
                beta_gate: Slot::BetaGate,
                out: Slot::DeltaOut,
                v_heads: d.num_v_heads,
                v_heads_per_k: d.num_v_heads / d.num_k_heads,
                key_dim: d.key_dim() as usize,
                value_dim: d.value_dim() as usize,
            };
            let e = step::<A>(ws, layer, b, c);
            &&& e.raw == b.raw
            &&& e.nums[state] == ssm_next::<A>(ws, layer, b.nums[state], t, d)
            &&& e.nums[Slot::DeltaOut] == ssm_read::<A>(
                ws,
                layer,
                b.nums[state],
                t,
                d,
                d.num_v_heads as int,
            )
            &&& forall|s: Slot|
                s != state && s != Slot::DeltaOut ==> #[trigger] e.nums[s] == b.nums[s]
        }),
{
    lemma_even(d);
    lemma_delta::<A>(
        ws,
        layer,
        b.nums[state],
        t,
        d,
        t.v,
        b.nums[Slot::Decay],
        b.nums[Slot::BetaGate],
    );
}

/// The recurrence of a linear layer leaves on the device what the host computes: the state after
/// the token, and the heads' output after the gated norm, or before it where there is none.
pub proof fn law_recurrence_pass<A: Arith>(
    ws: Weights,
    layer: int,
    b: Buffers,
    d: LinDims,
    linear_idx: usize,
    scale: F32,
    has_norm: bool,
    x: Seq<F32>,
)
    requires
        even_heads(d),
        x.len() == d.qkv_dim,
        scale == fdiv::<A>(one(), fsqrt::<A>(ffrom_int::<A>(d.key_dim() as i64))),
        b.nums[Slot::Queries] == x.subrange(0, d.total_key as int),
        b.nums[Slot::Keys] == x.subrange(d.total_key as int, 2 * d.total_key),
        b.nums[Slot::Values] == x.skip(2 * d.total_key),
        b.nums[Slot::Batch(1)].len() == d.total_value,
        d.num_v_heads * (d.value_dim() * d.key_dim()) <= b.nums[Slot::DeltaState(
            linear_idx,
        )].len(),
        rates_at(
            ws,
            layer,
            b,
            d,
            (Place { slot: Slot::ALog, offset: 0 }),
            (Place { slot: Slot::DtBias, offset: 0 }),
        ),
        has_norm ==> norm_at(ws, layer, b, d, (Place { slot: Slot::NormWeight, offset: 0 })),
        !has_norm ==> u16s_of(ws, in_layer(layer, ".linear_attn.norm.weight"@)) is None,
    ensures
        ({
            let e = run::<A>(ws, layer, b, recurrence_commands(d, linear_idx, scale, has_norm));
            let ssm = b.nums[Slot::DeltaState(linear_idx)];
            let t = token_parts::<A>(
                x,
                b.nums[Slot::Batch(3)],
                b.nums[Slot::Batch(2)],
                d,
                SumOrder::LeftToRight,
            );
            &&& e.nums[Slot::DeltaState(linear_idx)] == ssm_next::<A>(ws, layer, ssm, t, d)
            &&& e.nums[if has_norm {
                Slot::Gated
            } else {
                Slot::DeltaOut
            }] == lin_output::<A>(
                ws,
                layer,
                ssm_read::<A>(ws, layer, ssm, t, d, d.num_v_heads as int),
                b.nums[Slot::Batch(1)],
                d,
            )
        }),
{
    lemma_even(d);
    let c = recurrence_commands(d, linear_idx, scale, has_norm);
    let none = Seq::<Command>::empty();
    let (alpha, beta) = (b.nums[Slot::Batch(3)], b.nums[Slot::Batch(2)]);
    let (q, k, v) = (
        Place { slot: Slot::Queries, offset: 0 },
        Place { slot: Slot::Keys, offset: 0 },
        Place { slot: Slot::Values, offset: 0 },
    );
    let (a_log, dt_bias) = (
        Place { slot: Slot::ALog, offset: 0 },
        Place { slot: Slot::DtBias, offset: 0 },
    );
    let state = Slot::DeltaState(linear_idx);
    let t = token_parts::<A>(x, alpha, beta, d, SumOrder::LeftToRight);
    let (tk, tv) = (d.total_key as int, d.total_value as int);
    assert(b.part(q, tk) =~= x.subrange(0, tk));
    assert(b.part(k, tk) =~= x.subrange(tk, 2 * tk));
    assert(b.part(v, tv) =~= x.skip(2 * tk));
    lemma_norm_qk::<A>(ws, layer, b, x, alpha, beta, d, q, k, v, scale);
    let b1 = step::<A>(ws, layer, b, c[0]);
    lemma_run_push::<A>(ws, layer, b, none, c[0]);
    lemma_rates_stay(ws, layer, b, b1, d, a_log, dt_bias);
    lemma_rates::<A>(ws, layer, b1, d, alpha, beta, a_log, dt_bias);
    let b2 = step::<A>(ws, layer, b1, c[1]);
    lemma_run_push::<A>(ws, layer, b, none.push(c[0]), c[1]);
    assert(b2.part(q, tk) == b1.part(q, tk) && b2.part(k, tk) == b1.part(k, tk) && b2.part(v, tv)
        == b1.part(v, tv));
    lemma_delta_step::<A>(ws, layer, b2, t, d, state, q, k, v);
    let b3 = step::<A>(ws, layer, b2, c[2]);
    lemma_run_push::<A>(ws, layer, b, none.push(c[0]).push(c[1]), c[2]);
    let read = ssm_read::<A>(ws, layer, b.nums[state], t, d, d.num_v_heads as int);
    lemma_delta_sizes::<A>(ws, layer, b.nums[state], t, d);
    if has_norm {
        let p = Place { slot: Slot::NormWeight, offset: 0 };
        lemma_run_push::<A>(ws, layer, b, none.push(c[0]).push(c[1]).push(c[2]), c[3]);
        assert(c =~= none.push(c[0]).push(c[1]).push(c[2]).push(c[3]));
        let w = |i: int| b3.short_at(p, i);
        assert(forall|i: int| #[trigger] w(i) == b.short_at(p, i));
        lemma_gated_heads::<A>(ws, layer, read, b.nums[Slot::Batch(1)], d, w);
    } else {
        assert(c =~= none.push(c[0]).push(c[1]).push(c[2]));
        assert(lin_output::<A>(ws, layer, read, b.nums[Slot::Batch(1)], d) =~= read);
    }
}

/// The weights of a linear layer's convolution lie at their place on the device.
pub open spec fn conv_at(ws: Weights, layer: int, b: Buffers, d: LinDims, p: Place) -> bool {
    u16s_of(ws, in_layer(layer, ".linear_attn.conv1d.weight"@)) matches Some(s) && s.len() >= 4
        * d.qkv_dim && forall|i: int|
        0 <= i < 4 * d.qkv_dim ==> #[trigger] b.short_at(p, i) == s[i]
}

proof fn lemma_same_conv<A: Arith>(state: Seq<F32>, x: Seq<F32>, w: Seq<u16>, s: Seq<u16>)
    requires
        w.len() == 4 * x.len(),
        w.len() <= s.len(),
        3 * x.len() <= state.len(),
        forall|i: int| 0 <= i < w.len() ==> #[trigger] w[i] == s[i],
    ensures
        conv_step::<A>(state, x, w, 4) == conv_step::<A>(state, x, s, 4),
{
    let (a, b) = (conv_step::<A>(state, x, w, 4), conv_step::<A>(state, x, s, 4));
    assert forall|c: int| 0 <= c < x.len() implies a[c] == b[c] by {
        law_convolution::<A>(state, x, w, 4, c);
        law_convolution::<A>(state, x, s, 4, c);
        assert forall|j: int| 0 <= j < 4 implies #[trigger] w[c * 4 + j] == s[c * 4 + j] by {}
        assert(Seq::new(
            4,
            |j: int|
                fmul::<A>(
                    if j + 1 < 4 {
                        state[j * x.len() + c]
                    } else {
                        x[c]
                    },
                    of_bf16(w[c * 4 + j]),
                ),
        ) =~= Seq::new(
            4,
            |j: int|
                fmul::<A>(
                    if j + 1 < 4 {
                        state[j * x.len() + c]
                    } else {
                        x[c]
                    },
                    of_bf16(s[c * 4 + j]),
                ),
        ));
    }
    assert(a =~= b);
}

proof fn lemma_passes_push<A: Arith>(
    ws: Weights,
    layer: int,
    b: Buffers,
    p: Seq<Seq<Command>>,
    x: Command,
)
    ensures
        run_passes::<A>(ws, layer, b, p.push(seq![x])) == step::<A>(
            ws,
            layer,
            run_passes::<A>(ws, layer, b, p),
            x,
        ),
{
    assert(p.push(seq![x]).drop_last() =~= p);
    let e = run_passes::<A>(ws, layer, b, p);
    let none = Seq::<Command>::empty();
    lemma_run_push::<A>(ws, layer, e, none, x);
    assert(seq![x] =~= none.push(x));
}

/// A linear layer in one go leaves on the device what the host computes: the hidden vector after
/// linear attention, and the layer's state after the token.
#[verifier::rlimit(40)]
pub proof fn law_fused_layer<A: Arith>(
    ws: Weights,
    layer: int,
    b: Buffers,
    d: LinDims,
    linear_idx: usize,
    scale: F32,
    w: LinearPlaces,
    normed: Seq<F32>,
    residual: Seq<F32>,
)
    requires
        even_heads(d),
        8 * d.total_key <= usize::MAX,
        normed.len() == residual.len(),
        normed.len() + 255 <= usize::MAX,
        scale == fdiv::<A>(one(), fsqrt::<A>(ffrom_int::<A>(d.key_dim() as i64))),
        b.nums[Slot::Input] == normed,
        b.nums[Slot::Residual] == residual,
        b.nums[Slot::ConvState(linear_idx)].len() == 3 * d.qkv_dim,
        d.num_v_heads * (d.value_dim() * d.key_dim()) <= b.nums[Slot::DeltaState(
            linear_idx,
        )].len(),
        w.conv is Some,
        w.a_log is Some,
        w.dt_bias is Some,
        w.norm is Some,
        conv_at(ws, layer, b, d, (Place { slot: Slot::Weights, offset: w.conv->0 })),
        rates_at(
            ws,
            layer,
            b,
            d,
            (Place { slot: Slot::Weights, offset: w.a_log->0 }),
            (Place { slot: Slot::Weights, offset: w.dt_bias->0 }),
        ),
        norm_at(ws, layer, b, d, (Place { slot: Slot::Weights, offset: w.norm->0 })),
    ensures
        ({
            let e = run_passes::<A>(
                ws,
                layer,
                b,
                fused_passes(d, normed.len() as usize, linear_idx, scale, w),
            );
            let before = Recurrence {
                conv: b.nums[Slot::ConvState(linear_idx)],
                ssm: b.nums[Slot::DeltaState(linear_idx)],
            };
            let after = next_state::<A>(
                ws,
                layer,
                normed,
                before,
                d,
                SumOrder::LeftToRight,
            );
            &&& e.nums[Slot::Hidden] == after_linear::<A>(
                ws,
                layer,
                normed,
                residual,
                before,
                d,
                SumOrder::LeftToRight,
            )
            &&& e.nums[Slot::ConvState(linear_idx)] == after.conv
            &&& e.nums[Slot::DeltaState(linear_idx)] == after.ssm
        }),
{
    lemma_even(d);
    let order = SumOrder::LeftToRight;
    let hidden = normed.len() as usize;
    let p = fused_passes(d, hidden, linear_idx, scale, w);
    let (cs, ds) = (Slot::ConvState(linear_idx), Slot::DeltaState(linear_idx));
    let (tk, tv) = (d.total_key as int, d.total_value as int);
    let of = |rest: Seq<char>, rows: int| projected::<A>(ws, in_layer(layer, rest), normed, rows);
    let qkv = of(".linear_attn.in_proj_qkv"@, d.qkv_dim as int);
    let z = of(".linear_attn.in_proj_z"@, tv);
    let beta = of(".linear_attn.in_proj_b"@, d.num_v_heads as int);
    let alpha = of(".linear_attn.in_proj_a"@, d.num_v_heads as int);
    let (conv, ssm) = (b.nums[cs], b.nums[ds]);
    let wc = u16s_of(ws, in_layer(layer, ".linear_attn.conv1d.weight"@))->0;
    let mixed = conv_step::<A>(conv, qkv, wc, 4);
    let t = token_parts::<A>(mixed, alpha, beta, d, order);
    // The projections.
    let p0 = Seq::<Seq<Command>>::empty();
    let p1 = p0.push(linear_projections(d, hidden));
    assert(p1.drop_last() =~= p0);
    law_linear_pass::<A>(ws, layer, b, d, normed);
    let b1 = run_passes::<A>(ws, layer, b, p1);
    assert(run_passes::<A>(ws, layer, b, p0) == b);
    assert(b1 == run::<A>(ws, layer, b, linear_projections(d, hidden)));
    // The convolution.
    let conv_place = Place { slot: Slot::Weights, offset: w.conv->0 };
    let c2 = crate::device::convolve(d, linear_idx, w.conv->0);
    lemma_passes_push::<A>(ws, layer, b, p1, c2);
    let b2 = step::<A>(ws, layer, b1, c2);
    let read_w = Seq::new((4 * d.qkv_dim) as nat, |i: int| b1.short_at(conv_place, i));
    assert forall|i: int| 0 <= i < read_w.len() implies #[trigger] read_w[i] == wc[i] by {
        assert(b.short_at(conv_place, i) == wc[i]);
    }
    assert(qkv.take(d.qkv_dim as int) =~= qkv);
    lemma_same_conv::<A>(conv, qkv, read_w, wc);
    assert(b2.nums[Slot::ConvOut] == mixed);
    // Norms, rates, and the recurrence.
    let (q, k, v) = (
        Place { slot: Slot::ConvOut, offset: 0 },
        Place { slot: Slot::ConvOut, offset: (4 * d.total_key) as usize },
        Place { slot: Slot::ConvOut, offset: (8 * d.total_key) as usize },
    );
    assert(b2.part(q, tk) =~= mixed.subrange(0, tk));
    assert(b2.part(k, tk) =~= mixed.subrange(tk, 2 * tk));
    assert(b2.part(v, tv) =~= mixed.skip(2 * tk));
    let p2 = p1.push(seq![c2]);
    let c3 = crate::device::norm_joined(d, scale);
    lemma_passes_push::<A>(ws, layer, b, p2, c3);
    lemma_norm_qk::<A>(ws, layer, b2, mixed, alpha, beta, d, q, k, v, scale);
    let b3 = step::<A>(ws, layer, b2, c3);
    let (a_log, dt_bias) = (
        Place { slot: Slot::Weights, offset: w.a_log->0 },
        Place { slot: Slot::Weights, offset: w.dt_bias->0 },
    );
    let p3 = p2.push(seq![c3]);
    let c4 = crate::device::decay_beta(d, w);
    lemma_passes_push::<A>(ws, layer, b, p3, c4);
    lemma_rates_stay(ws, layer, b, b3, d, a_log, dt_bias);
    lemma_rates::<A>(ws, layer, b3, d, alpha, beta, a_log, dt_bias);
    let b4 = step::<A>(ws, layer, b3, c4);
    let p4 = p3.push(seq![c4]);
    let c5 = crate::device::delta_joined(d, linear_idx);
    lemma_passes_push::<A>(ws, layer, b, p4, c5);
    assert(b4.part(q, tk) == b3.part(q, tk) && b4.part(k, tk) == b3.part(k, tk) && b4.part(v, tv)
        == b3.part(v, tv));
    lemma_delta_step::<A>(ws, layer, b4, t, d, ds, q, k, v);
    let b5 = step::<A>(ws, layer, b4, c5);
    let read = ssm_read::<A>(ws, layer, ssm, t, d, d.num_v_heads as int);
    lemma_delta_sizes::<A>(ws, layer, ssm, t, d);
    // The gated norm, the output projection, and the residual.
    let norm_place = Place { slot: Slot::Weights, offset: w.norm->0 };
    let c6 = Command::GatedNorm {
        x: Slot::DeltaOut,
        z: Slot::Batch(1),
        weight: norm_place,
        out: Slot::Gated,
        heads: d.num_v_heads,
        dim: d.value_dim() as usize,
    };
    let p5 = p4.push(seq![c5]);
    lemma_passes_push::<A>(ws, layer, b, p5, c6);
    let b6 = step::<A>(ws, layer, b5, c6);
    let wn = |i: int| b5.short_at(norm_place, i);
    assert forall|i: int| 0 <= i < d.value_dim() implies #[trigger] wn(i) == u16s_of(
        ws,
        in_layer(layer, ".linear_attn.norm.weight"@),
    )->0[i] by {
        assert(b.short_at(norm_place, i) == u16s_of(
            ws,
            in_layer(layer, ".linear_attn.norm.weight"@),
        )->0[i]);
    }
    lemma_gated_heads::<A>(ws, layer, read, z, d, wn);
    let y = lin_output::<A>(ws, layer, read, z, d);
    assert(b6.nums[Slot::Gated] == y);
    let p6 = p5.push(seq![c6]);
    let c7 = crate::device::linear_out(d, hidden);
    lemma_passes_push::<A>(ws, layer, b, p6, c7);
    let b7 = step::<A>(ws, layer, b6, c7);
    assert(y.len() == tv);
    assert(y.take(tv) =~= y);
    let p7 = p6.push(seq![c7]);
    let c8 = crate::device::add_residual(hidden);
    lemma_passes_push::<A>(ws, layer, b, p7, c8);
    let b8 = step::<A>(ws, layer, b7, c8);
    assert(p =~= p7.push(seq![c8]));
    assert(hidden <= (hidden + 255) / 256 * 256);
    let before = Recurrence { conv, ssm };
    assert(b8.nums[Slot::Hidden] =~= after_linear::<A>(
        ws,
        layer,
        normed,
        residual,
        before,
        d,
        order,
    ));
}

/// The heads of a linear layer on the device are those of the host, also where the key heads do not
/// divide the value heads: every value head uses the same key head, and all heads have the same
/// sizes.
pub proof fn law_device_heads(d: LinDims, linear_idx: usize, scale: F32, has_norm: bool, vh: int)
    requires
        0 < d.num_k_heads <= d.num_v_heads,
        0 <= vh < d.num_v_heads,
    ensures
        ({
            let apart = recurrence_commands(d, linear_idx, scale, has_norm);
            let host = |v_heads: usize, per: usize, kd: usize, vd: usize|
                {
                    &&& v_heads == d.num_v_heads
                    &&& vh / per as int == d.key_head(vh)
                    &&& kd == d.key_dim()
                    &&& vd == d.value_dim()
                };
            &&& apart.len() == if has_norm {
                4int
            } else {
                3int
            }
            &&& apart[0] matches Command::NormQk { heads, dim, .. } && heads == d.num_k_heads
                && dim == d.key_dim()
            &&& apart[1] matches Command::DecayBeta { heads, .. } && heads == d.num_v_heads
            &&& apart[2] matches Command::DeltaStep {
                v_heads,
                v_heads_per_k,
                key_dim,
                value_dim,
                ..
            } && host(v_heads, v_heads_per_k, key_dim, value_dim)
            &&& delta_joined(d, linear_idx) matches Command::DeltaStep {
                v_heads,
                v_heads_per_k,
                key_dim,
                value_dim,
                ..
            } && host(v_heads, v_heads_per_k, key_dim, value_dim)
            &&& has_norm ==> (apart[3] matches Command::GatedNorm { heads, dim, .. } && heads
                == d.num_v_heads && dim == d.value_dim())
        }),
{
    let (tk, nk) = (d.total_key as int, d.num_k_heads as int);
    let (tv, nv) = (d.total_value as int, d.num_v_heads as int);
    assert(0 <= tk / nk <= tk) by (nonlinear_arith)
        requires
            0 <= tk,
            0 < nk,
    ;
    assert(0 <= tv / nv <= tv) by (nonlinear_arith)
        requires
            0 <= tv,
            0 < nv,
    ;
}

} // verus!
