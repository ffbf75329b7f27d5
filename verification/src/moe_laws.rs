//! What routing and the experts do, number by number.

use crate::bytes::{u16_at, u32_at};
use crate::config::{ExpertLayout, ModelConfig};
use crate::float::{Arith, F32, fadd, fdiv, feq, fexp, flt, fmul, fneg, nan, one, zero};
use crate::math::{SumOrder, left_sum, softmax, sum_of};
use crate::moe::{
    MoeInput, all_zero, chosen_reads, device_sum, expert_out, experts_sum, experts_total,
    gate_parts, law_routing, moe_after, moe_input, moe_result, routing, routing_weights, swiglu,
    up_parts,
};
use crate::topk::in_use;
use crate::weights::{QParts, Weights, in_layer, matrix_of, product, projected};
use vstd::prelude::*;

verus! {

/// The weight at a place belongs to the expert at that place: it is that expert's share of the
/// scores' exponentials, over the sum of the chosen shares where that is positive. All weights have
/// the same divisor.
pub proof fn law_routing_weights<A: Arith>(scores: Seq<F32>, k: int, order: SumOrder, i: int)
    requires
        0 < k,
        forall|j: int| 0 <= j < scores.len() ==> !nan(#[trigger] softmax::<A>(scores, order)[j]),
        0 <= i < k,
        i < scores.len(),
    ensures
        ({
            let (r, w) = (
                routing::<A>(scores, k, order),
                routing_weights::<A>(scores, k, order),
            );
            let shares = softmax::<A>(scores, order);
            let total = sum_of::<A>(Seq::new(k as nat, |j: int| r[j].0), SumOrder::LeftToRight);
            &&& w.len() == k
            &&& 0 <= r[i].1 < scores.len()
            &&& r[i].0 == shares[r[i].1]
            &&& w[i] == if flt(zero(), total) {
                fmul::<A>(shares[r[i].1], fdiv::<A>(one(), total))
            } else {
                shares[r[i].1]
            }
        }),
{
    law_routing::<A>(scores, k, order);
    let r = routing::<A>(scores, k, order);
    assert(i < in_use(k, scores.len() as int));
    assert(r[i].0 == softmax::<A>(scores, order)[r[i].1]);
    assert(Seq::new(r.len(), |j: int| r[j].0) =~= Seq::new(k as nat, |j: int| r[j].0));
}

/// The matrix whose words, scales and biases begin at the given bytes.
pub open spec fn matrix_at(
    b: Seq<u8>,
    words: (int, int),
    scales: (int, int),
    biases: (int, int),
) -> QParts {
    QParts {
        w: Seq::new((words.1 / 4) as nat, |i: int| u32_at(b, words.0 + 4 * i)),
        s: Seq::new((scales.1 / 2) as nat, |i: int| u16_at(b, scales.0 + 2 * i)),
        b: Seq::new((biases.1 / 2) as nat, |i: int| u16_at(b, biases.0 + 2 * i)),
    }
}

/// An expert, put together: two of its matrices multiply the vector, the activation function runs
/// on the one, and the third multiplies the products of both.
pub proof fn law_expert<A: Arith>(b: Seq<u8>, l: ExpertLayout, x: Seq<F32>, inter: int)
    ensures
        ({
            let gate = product::<A>(
                matrix_at(
                    b,
                    (l.gate_w_off as int, l.gate_w_size as int),
                    (l.gate_s_off as int, l.gate_s_size as int),
                    (l.gate_b_off as int, l.gate_b_size as int),
                ),
                x,
                inter,
            );
            let up = product::<A>(
                matrix_at(
                    b,
                    (l.up_w_off as int, l.up_w_size as int),
                    (l.up_s_off as int, l.up_s_size as int),
                    (l.up_b_off as int, l.up_b_size as int),
                ),
                x,
                inter,
            );
            let act = Seq::new(
                inter as nat,
                |j: int|
                    fmul::<A>(
                        fdiv::<A>(gate[j], fadd::<A>(one(), fexp::<A>(fneg(gate[j])))),
                        up[j],
                    ),
            );
            expert_out::<A>(b, l, x, inter) == product::<A>(
                matrix_at(
                    b,
                    (l.down_w_off as int, l.down_w_size as int),
                    (l.down_s_off as int, l.down_s_size as int),
                    (l.down_b_off as int, l.down_b_size as int),
                ),
                act,
                x.len() as int,
            )
        }),
{
    let gate = product::<A>(gate_parts(b, l), x, inter);
    let up = product::<A>(up_parts(b, l), x, inter);
    let act = Seq::new(
        inter as nat,
        |j: int|
            fmul::<A>(
                fdiv::<A>(gate[j], fadd::<A>(one(), fexp::<A>(fneg(gate[j])))),
                up[j],
            ),
    );
    assert(swiglu::<A>(gate, up) =~= act);
}

proof fn lemma_sum_len<A: Arith>(
    start: Seq<F32>,
    reads: Seq<Option<Seq<u8>>>,
    weights: Seq<F32>,
    l: ExpertLayout,
    x: Seq<F32>,
    inter: int,
    n: int,
)
    ensures
        experts_sum::<A>(start, reads, weights, l, x, inter, n).len() == start.len(),
    decreases n,
{
    if n > 0 {
        lemma_sum_len::<A>(start, reads, weights, l, x, inter, n - 1);
    }
}

proof fn lemma_sum_before<A: Arith>(
    start: Seq<F32>,
    reads: Seq<Option<Seq<u8>>>,
    weights: Seq<F32>,
    more_reads: Seq<Option<Seq<u8>>>,
    more_weights: Seq<F32>,
    l: ExpertLayout,
    x: Seq<F32>,
    inter: int,
    n: int,
)
    requires
        0 <= n <= reads.len(),
        n <= weights.len(),
        forall|i: int| 0 <= i < n ==> #[trigger] reads[i] == more_reads[i],
        forall|i: int| 0 <= i < n ==> #[trigger] weights[i] == more_weights[i],
    ensures
        experts_sum::<A>(start, reads, weights, l, x, inter, n) == experts_sum::<A>(
            start,
            more_reads,
            more_weights,
            l,
            x,
            inter,
            n,
        ),
    decreases n,
{
    if n > 0 {
        lemma_sum_before::<A>(
            start,
            reads,
            weights,
            more_reads,
            more_weights,
            l,
            x,
            inter,
            n - 1,
        );
        assert(reads[n - 1] == more_reads[n - 1]);
        assert(weights[n - 1] == more_weights[n - 1]);
    }
}

/// The chosen experts, one by one, on the host: without experts the sum is zero; one more expert
/// whose bytes could be read adds each number of its output times its own weight; one whose bytes
/// could not be read adds nothing.
pub proof fn law_one_more_expert<A: Arith>(
    reads: Seq<Option<Seq<u8>>>,
    weights: Seq<F32>,
    read: Option<Seq<u8>>,
    weight: F32,
    l: ExpertLayout,
    x: Seq<F32>,
    inter: int,
    i: int,
)
    requires
        reads.len() == weights.len(),
        0 <= i < x.len(),
    ensures
        ({
            let none = Seq::<Vec<F32>>::empty();
            let before = experts_total::<A>(none, reads, weights, l, x, inter);
            let after = experts_total::<A>(
                none,
                reads.push(read),
                weights.push(weight),
                l,
                x,
                inter,
            );
            &&& after.len() == x.len()
            &&& after[i] == match read {
                Some(b) => fadd::<A>(
                    before[i],
                    fmul::<A>(expert_out::<A>(b, l, x, inter)[i], weight),
                ),
                None => before[i],
            }
            &&& reads.len() == 0 ==> before[i] == zero()
        }),
{
    let none = Seq::<Vec<F32>>::empty();
    let z = device_sum::<A>(none, weights, x.len() as int, 0);
    assert(all_zero(z));
    let n = reads.len() as int;
    lemma_sum_len::<A>(z, reads, weights, l, x, inter, n);
    lemma_sum_before::<A>(
        z,
        reads,
        weights,
        reads.push(read),
        weights.push(weight),
        l,
        x,
        inter,
        n,
    );
    assert(device_sum::<A>(none, weights.push(weight), x.len() as int, 0) == z);
}

proof fn lemma_device_sum<A: Arith>(
    outs: Seq<Vec<F32>>,
    weights: Seq<F32>,
    hidden: int,
    p: Seq<F32>,
    i: int,
    n: int,
)
    requires
        0 <= n <= p.len(),
        0 <= i < hidden,
        forall|e: int| 0 <= e < n ==> #[trigger] p[e] == fmul::<A>(outs[e]@[i], weights[e]),
    ensures
        device_sum::<A>(outs, weights, hidden, n).len() == hidden,
        device_sum::<A>(outs, weights, hidden, n)[i] == left_sum::<A>(p, n),
    decreases n,
{
    if n > 0 {
        lemma_device_sum::<A>(outs, weights, hidden, p, i, n - 1);
    }
}

/// What a device computed counts where it is not zero throughout: output and weight at the same
/// place belong together, and the experts' bytes are not looked at.
pub proof fn law_device_outputs<A: Arith>(
    outs: Seq<Vec<F32>>,
    reads: Seq<Option<Seq<u8>>>,
    weights: Seq<F32>,
    l: ExpertLayout,
    x: Seq<F32>,
    inter: int,
    i: int,
    j: int,
)
    requires
        outs.len() <= weights.len(),
        0 <= i < x.len(),
        0 <= j < x.len(),
        !feq(
            sum_of::<A>(
                Seq::new(outs.len(), |e: int| fmul::<A>(outs[e]@[j], weights[e])),
                SumOrder::LeftToRight,
            ),
            zero(),
        ),
    ensures
        experts_total::<A>(outs, reads, weights, l, x, inter).len() == x.len(),
        experts_total::<A>(outs, reads, weights, l, x, inter)[i] == sum_of::<A>(
            Seq::new(outs.len(), |e: int| fmul::<A>(outs[e]@[i], weights[e])),
            SumOrder::LeftToRight,
        ),
{
    let n = outs.len() as int;
    let p = Seq::new(outs.len(), |e: int| fmul::<A>(outs[e]@[i], weights[e]));
    let q = Seq::new(outs.len(), |e: int| fmul::<A>(outs[e]@[j], weights[e]));
    lemma_device_sum::<A>(outs, weights, x.len() as int, p, i, n);
    lemma_device_sum::<A>(outs, weights, x.len() as int, q, j, n);
    let d = device_sum::<A>(outs, weights, x.len() as int, n);
    assert(!feq(d[j], zero()));
}

/// The block of a layer, put together: the residual, plus the chosen experts, plus the shared
/// expert scaled by the logistic function of its score. The router's scores choose; place by place
/// the bytes that run are those of the chosen expert, with that expert's weight.
pub proof fn law_block<A: Arith>(
    ws: Weights,
    layer: int,
    hidden: Seq<F32>,
    x: Seq<F32>,
    experts: Seq<Option<Vec<u8>>>,
    c: ModelConfig,
    order: SumOrder,
    i: int,
)
    requires
        0 <= i < hidden.len(),
    ensures
        ({
            let of = |rest: Seq<char>, v: Seq<F32>, rows: int|
                projected::<A>(ws, in_layer(layer, rest), v, rows);
            let scores = of(".mlp.gate"@, x, c.num_experts as int);
            let k = c.num_experts_per_tok as int;
            let r = routing::<A>(scores, k, order);
            let w = routing_weights::<A>(scores, k, order);
            let reads = Seq::new(
                r.len(),
                |e: int|
                    if 0 <= r[e].1 < experts.len() && experts[r[e].1] is Some {
                        Some(experts[r[e].1]->0@)
                    } else {
                        None
                    },
            );
            let chosen = experts_total::<A>(
                Seq::empty(),
                reads,
                w,
                c.expert_layout_4bit,
                x,
                c.moe_intermediate as int,
            );
            let g = of(".mlp.shared_expert.gate_proj"@, x, c.shared_intermediate as int);
            let u = of(".mlp.shared_expert.up_proj"@, x, c.shared_intermediate as int);
            let act = Seq::new(
                c.shared_intermediate as nat,
                |j: int|
                    fmul::<A>(fdiv::<A>(g[j], fadd::<A>(one(), fexp::<A>(fneg(g[j])))), u[j]),
            );
            let shared = of(".mlp.shared_expert.down_proj"@, act, c.hidden_dim as int);
            let score = match matrix_of(ws, in_layer(layer, ".mlp.shared_expert_gate"@)) {
                Some(m) => product::<A>(m, x, 1)[0],
                None => zero(),
            };
            moe_after::<A>(ws, layer, hidden, x, experts, c, order)[i] == fadd::<A>(
                fadd::<A>(hidden[i], chosen[i]),
                fmul::<A>(
                    fdiv::<A>(one(), fadd::<A>(one(), fexp::<A>(fneg(score)))),
                    shared[i],
                ),
            )
        }),
{
    let of = |rest: Seq<char>, v: Seq<F32>, rows: int|
        projected::<A>(ws, in_layer(layer, rest), v, rows);
    let scores = of(".mlp.gate"@, x, c.num_experts as int);
    let r = routing::<A>(scores, c.num_experts_per_tok as int, order);
    let reads = Seq::new(
        r.len(),
        |e: int|
            if 0 <= r[e].1 < experts.len() && experts[r[e].1] is Some {
                Some(experts[r[e].1]->0@)
            } else {
                None
            },
    );
    assert(chosen_reads(experts, r) =~= reads);
    let g = of(".mlp.shared_expert.gate_proj"@, x, c.shared_intermediate as int);
    let u = of(".mlp.shared_expert.up_proj"@, x, c.shared_intermediate as int);
    assert(swiglu::<A>(g, u) =~= Seq::new(
        c.shared_intermediate as nat,
        |j: int| fmul::<A>(fdiv::<A>(g[j], fadd::<A>(one(), fexp::<A>(fneg(g[j])))), u[j]),
    ));
}

/// Weights and experts stand at the same places, whatever the scores are: the weight at a place is
/// the share at that place, over the sum of all chosen shares where that is positive.
pub proof fn law_weights_in_place<A: Arith>(scores: Seq<F32>, k: int, order: SumOrder, i: int)
    requires
        0 <= i < routing::<A>(scores, k, order).len(),
    ensures
        ({
            let r = routing::<A>(scores, k, order);
            let w = routing_weights::<A>(scores, k, order);
            let total = sum_of::<A>(Seq::new(r.len(), |j: int| r[j].0), SumOrder::LeftToRight);
            &&& w.len() == r.len()
            &&& w[i] == if flt(zero(), total) {
                fmul::<A>(r[i].0, fdiv::<A>(one(), total))
            } else {
                r[i].0
            }
        }),
{
    let r = routing::<A>(scores, k, order);
    assert(Seq::new(r.len(), |j: int| r[j].0) =~= r.map(|j: int, e: (F32, int)| e.0));
}

/// The end of a layer's block from its parts: the residual, plus the chosen experts, plus the
/// shared expert, whose gate goes through the activation and multiplies the other projection,
/// scaled by the logistic function of its score.
pub proof fn law_block_end<A: Arith>(
    ws: Weights,
    layer: int,
    h_mid: Seq<F32>,
    x: Seq<F32>,
    gate: Seq<F32>,
    up: Seq<F32>,
    score: F32,
    outs: Seq<Vec<F32>>,
    reads: Seq<Option<Seq<u8>>>,
    weights: Seq<F32>,
    c: ModelConfig,
    i: int,
)
    requires
        0 <= i < h_mid.len(),
    ensures
        ({
            let chosen = experts_total::<A>(
                outs,
                reads,
                weights,
                c.expert_layout_4bit,
                x,
                c.moe_intermediate as int,
            );
            let act = Seq::new(
                gate.len(),
                |j: int|
                    fmul::<A>(
                        fdiv::<A>(gate[j], fadd::<A>(one(), fexp::<A>(fneg(gate[j])))),
                        up[j],
                    ),
            );
            let shared = projected::<A>(
                ws,
                in_layer(layer, ".mlp.shared_expert.down_proj"@),
                act,
                c.hidden_dim as int,
            );
            let r = moe_result::<A>(
                ws,
                layer,
                h_mid,
                x,
                gate,
                up,
                score,
                outs,
                reads,
                weights,
                c,
            );
            &&& r.len() == h_mid.len()
            &&& r[i] == fadd::<A>(
                fadd::<A>(h_mid[i], chosen[i]),
                fmul::<A>(
                    fdiv::<A>(one(), fadd::<A>(one(), fexp::<A>(fneg(score)))),
                    shared[i],
                ),
            )
        }),
{
    assert(swiglu::<A>(gate, up) =~= Seq::new(
        gate.len(),
        |j: int|
            fmul::<A>(fdiv::<A>(gate[j], fadd::<A>(one(), fexp::<A>(fneg(gate[j])))), up[j]),
    ));
}

/// The beginning of a layer's block: four projections of the same vector, each with its own
/// matrix.
pub proof fn law_block_start<A: Arith>(
    ws: Weights,
    layer: int,
    x: Seq<F32>,
    c: ModelConfig,
    r: MoeInput,
)
    requires
        moe_input::<A>(ws, layer, x, c, r),
    ensures
        ({
            let of = |rest: Seq<char>, rows: int|
                projected::<A>(ws, in_layer(layer, rest), x, rows);
            &&& r.h_post@ == x
            &&& r.gate_scores@ == of(".mlp.gate"@, c.num_experts as int)
            &&& r.shared_gate@ == of(
                ".mlp.shared_expert.gate_proj"@,
                c.shared_intermediate as int,
            )
            &&& r.shared_up@ == of(".mlp.shared_expert.up_proj"@, c.shared_intermediate as int)
            &&& r.shared_gate_score == of(".mlp.shared_expert_gate"@, 1)[0]
        }),
{
}

/// What a device computed for the chosen experts, at one place: output and weight at the same place
/// belong together.
pub open spec fn device_total<A: Arith>(outs: Seq<Vec<F32>>, weights: Seq<F32>, j: int) -> F32 {
    sum_of::<A>(
        Seq::new(outs.len(), |e: int| fmul::<A>(outs[e]@[j], weights[e])),
        SumOrder::LeftToRight,
    )
}

/// Where what a device computed is zero throughout, the experts run on the host: one more expert
/// whose bytes could be read adds each number of its output times its own weight, and one whose
/// bytes could not be read adds nothing.
pub proof fn law_host_takes_over<A: Arith>(
    outs: Seq<Vec<F32>>,
    reads: Seq<Option<Seq<u8>>>,
    weights: Seq<F32>,
    read: Option<Seq<u8>>,
    weight: F32,
    l: ExpertLayout,
    x: Seq<F32>,
    inter: int,
    i: int,
)
    requires
        reads.len() == weights.len(),
        outs.len() <= weights.len(),
        0 <= i < x.len(),
        forall|j: int|
            0 <= j < x.len() ==> feq(#[trigger] device_total::<A>(outs, weights, j), zero()),
    ensures
        ({
            let before = experts_total::<A>(outs, reads, weights, l, x, inter);
            let after = experts_total::<A>(
                outs,
                reads.push(read),
                weights.push(weight),
                l,
                x,
                inter,
            );
            &&& after.len() == x.len()
            &&& after[i] == match read {
                Some(b) => fadd::<A>(
                    before[i],
                    fmul::<A>(expert_out::<A>(b, l, x, inter)[i], weight),
                ),
                None => before[i],
            }
        }),
{
    let (n, m) = (outs.len() as int, reads.len() as int);
    let more = weights.push(weight);
    let z = device_sum::<A>(outs, weights, x.len() as int, n);
    let z2 = device_sum::<A>(outs, more, x.len() as int, n);
    assert forall|j: int| 0 <= j < x.len() implies z[j] == device_total::<A>(outs, weights, j)
        && z2[j] == z[j] by {
        let p = Seq::new(outs.len(), |e: int| fmul::<A>(outs[e]@[j], weights[e]));
        lemma_device_sum::<A>(outs, weights, x.len() as int, p, j, n);
        lemma_device_sum::<A>(outs, more, x.len() as int, p, j, n);
    }
    let p = Seq::new(outs.len(), |e: int| fmul::<A>(outs[e]@[i], weights[e]));
    lemma_device_sum::<A>(outs, weights, x.len() as int, p, i, n);
    lemma_device_sum::<A>(outs, more, x.len() as int, p, i, n);
    assert(z =~= z2);
    assert(all_zero(z));
    lemma_sum_len::<A>(z, reads, weights, l, x, inter, m);
    lemma_sum_before::<A>(z, reads, weights, reads.push(read), more, l, x, inter, m);
}

/// The activation of an expert: a gate over one plus the exponential of its negative, times the
/// number beside it.
pub proof fn law_swiglu<A: Arith>(g: Seq<F32>, u: Seq<F32>, i: int)
    requires
        0 <= i < g.len(),
    ensures
        swiglu::<A>(g, u).len() == g.len(),
        swiglu::<A>(g, u)[i] == fmul::<A>(
            fdiv::<A>(g[i], fadd::<A>(one(), fexp::<A>(fneg(g[i])))),
            u[i],
        ),
{
}

} // verus!
