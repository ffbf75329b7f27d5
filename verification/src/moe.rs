//! The mixture of experts: routing, the chosen experts, the shared expert, and their sum.

use crate::bytes::{bytes_to_u16s, bytes_to_u32s, u16_at, u32_at};
use crate::config::{ExpertLayout, ModelConfig};
use crate::float::{Arith, F32, deterministic, fadd, fdiv, feq, flt, fmul, nan, one, zero};
use crate::int4::table_fits;
use crate::math::{
    SumOrder, cpu_normalize_weights, cpu_sigmoid, cpu_softmax, fsigmoid, fsilu, normalized, silu,
    softmax, sum_of, zero_seq, zeros,
};
use crate::moe_laws::law_routing_weights;
use crate::topk::{chosen, cpu_topk, entries, in_use, law_topk, topk_of};
use crate::weights::{
    QMatrix, QParts, Weights, cpu_dequant_matvec_4bit, get_matrix, in_layer, layer_name, matrix_of,
    named_fits, norm_by, norm_fits, normed_by, parts_fit, product, project, projected,
};
use vstd::prelude::*;

verus! {

/// The activation of the first vector times the second.
pub open spec fn swiglu<A: Arith>(g: Seq<F32>, u: Seq<F32>) -> Seq<F32> {
    Seq::new(g.len(), |i: int| fmul::<A>(fsilu::<A>(g[i]), u[i]))
}

/// The activation of the first vector times the second.
pub fn cpu_swiglu<A: Arith>(g: &[F32], u: &[F32]) -> (r: Vec<F32>)
    requires
        g@.len() <= u@.len(),
    ensures
        r@.len() == g@.len(),
        deterministic::<A>() ==> r@ == swiglu::<A>(g@, u@),
{
    let mut out: Vec<F32> = Vec::new();
    for i in 0..g.len()
        invariant
            g@.len() <= u@.len(),
            out@.len() == i,
            deterministic::<A>() ==> forall|j: int|
                0 <= j < i ==> #[trigger] out@[j] == fmul::<A>(fsilu::<A>(g@[j]), u@[j]),
    {
        out.push(A::mul(silu::<A>(g[i]), u[i]));
    }
    out
}

/// The chosen experts and their weights: the `k` largest of the scores' exponentials over their
/// sum, in the order of the heap, the weights divided by their sum.
pub open spec fn routing<A: Arith>(scores: Seq<F32>, k: int, order: SumOrder) -> Seq<(F32, int)> {
    topk_of(
        Seq::new(k as nat, |i: int| (zero(), 0int)),
        softmax::<A>(scores, order),
        k,
        scores.len() as int,
    )
}

/// The weights of the chosen experts.
pub open spec fn routing_weights<A: Arith>(scores: Seq<F32>, k: int, order: SumOrder) -> Seq<F32> {
    let r = routing::<A>(scores, k, order);
    normalized::<A>(Seq::new(r.len(), |i: int| r[i].0))
}

/// Chooses `k` experts by their scores.
pub fn route<A: Arith>(scores: &[F32], k: usize, order: SumOrder) -> (r: (Vec<usize>, Vec<F32>))
    requires
        k <= usize::MAX / 2 - 1,
        scores@.len() > 0 ==> k > 0,
    ensures
        r.0@.len() == k,
        r.1@.len() == k,
        deterministic::<A>() ==> forall|i: int|
            0 <= i < k ==> #[trigger] r.0@[i] == routing::<A>(scores@, k as int, order)[i].1,
        deterministic::<A>() ==> r.1@ == routing_weights::<A>(scores@, k as int, order),
        deterministic::<A>() && k <= scores@.len() && (forall|j: int|
            0 <= j < scores@.len() ==> !nan(#[trigger] softmax::<A>(scores@, order)[j])) ==> {
            let shares = softmax::<A>(scores@, order);
            let own = Seq::new(k as nat, |j: int| shares[r.0@[j] as int]);
            let total = sum_of::<A>(own, SumOrder::LeftToRight);
            forall|i: int|
                0 <= i < k ==> r.0@[i] < scores@.len() && #[trigger] r.1@[i] == if flt(
                    zero(),
                    total,
                ) {
                    fmul::<A>(shares[r.0@[i] as int], fdiv::<A>(one(), total))
                } else {
                    shares[r.0@[i] as int]
                }
        },
{
    let probs: Vec<F32> = cpu_softmax::<A>(scores, order);
    let mut indices: Vec<usize> = Vec::new();
    for i in 0..k
        invariant
            indices@.len() == i,
            forall|j: int| 0 <= j < i ==> #[trigger] indices@[j] == 0,
    {
        indices.push(0);
    }
    let mut values: Vec<F32> = zeros(k);
    assert(entries(values@, indices@) =~= Seq::new(k as nat, |i: int| (zero(), 0int)));
    cpu_topk(probs.as_slice(), k, &mut indices, &mut values);
    let ghost picked = entries(values@, indices@);
    proof {
        if deterministic::<A>() {
            assert(picked == routing::<A>(scores@, k as int, order));
            assert(values@ =~= Seq::new(k as nat, |i: int| picked[i].0));
            assert(forall|i: int| 0 <= i < k ==> #[trigger] indices@[i] == picked[i].1);
        }
    }
    let weights: Vec<F32> = cpu_normalize_weights::<A>(values);
    proof {
        let shares = softmax::<A>(scores@, order);
        if deterministic::<A>() && 0 < k <= scores@.len() && (forall|j: int|
            0 <= j < scores@.len() ==> !nan(#[trigger] shares[j])) {
            let own = Seq::new(k as nat, |j: int| shares[indices@[j] as int]);
            assert forall|i: int| 0 <= i < k implies indices@[i] < scores@.len()
                && #[trigger] picked[i].0 == own[i] by {
                law_routing_weights::<A>(scores@, k as int, order, i);
            }
            assert(Seq::new(k as nat, |j: int| picked[j].0) =~= own);
            assert forall|i: int| 0 <= i < k implies #[trigger] weights@[i] == if flt(
                zero(),
                sum_of::<A>(own, SumOrder::LeftToRight),
            ) {
                fmul::<A>(
                    own[i],
                    fdiv::<A>(one(), sum_of::<A>(own, SumOrder::LeftToRight)),
                )
            } else {
                own[i]
            } by {
                law_routing_weights::<A>(scores@, k as int, order, i);
                assert(picked[i].0 == own[i]);
            }
        }
    }
    (indices, weights)
}

/// Where an expert begins in the file of its layer.
pub fn expert_offset(eidx: usize, expert_size: usize) -> (r: i64)
    requires
        eidx * expert_size <= i64::MAX,
        eidx <= i64::MAX,
        expert_size <= i64::MAX,
    ensures
        r == eidx * expert_size,
{
    proof {
        assert(eidx * expert_size >= 0) by (nonlinear_arith);
    }
    (eidx as i64) * (expert_size as i64)
}

/// The packed matrix in the bytes of an expert, from the places and sizes of its parts.
pub open spec fn parts_at(
    b: Seq<u8>,
    w_off: int,
    w_size: int,
    s_off: int,
    s_size: int,
    b_off: int,
    b_size: int,
) -> QParts {
    QParts {
        w: Seq::new((w_size / 4) as nat, |i: int| u32_at(b, w_off + 4 * i)),
        s: Seq::new((s_size / 2) as nat, |i: int| u16_at(b, s_off + 2 * i)),
        b: Seq::new((b_size / 2) as nat, |i: int| u16_at(b, b_off + 2 * i)),
    }
}

/// The three matrices of an expert.
pub open spec fn gate_parts(b: Seq<u8>, l: ExpertLayout) -> QParts {
    parts_at(
        b,
        l.gate_w_off as int,
        l.gate_w_size as int,
        l.gate_s_off as int,
        l.gate_s_size as int,
        l.gate_b_off as int,
        l.gate_b_size as int,
    )
}

pub open spec fn up_parts(b: Seq<u8>, l: ExpertLayout) -> QParts {
    parts_at(
        b,
        l.up_w_off as int,
        l.up_w_size as int,
        l.up_s_off as int,
        l.up_s_size as int,
        l.up_b_off as int,
        l.up_b_size as int,
    )
}

pub open spec fn down_parts(b: Seq<u8>, l: ExpertLayout) -> QParts {
    parts_at(
        b,
        l.down_w_off as int,
        l.down_w_size as int,
        l.down_s_off as int,
        l.down_s_size as int,
        l.down_b_off as int,
        l.down_b_size as int,
    )
}

/// The parts of an expert lie within its `size` bytes and hold matrices of the right sizes.
pub open spec fn layout_fits(l: ExpertLayout, size: int, hidden: int, inter: int) -> bool {
    &&& l.gate_w_off + l.gate_w_size <= size
    &&& l.gate_s_off + l.gate_s_size <= size
    &&& l.gate_b_off + l.gate_b_size <= size
    &&& l.up_w_off + l.up_w_size <= size
    &&& l.up_s_off + l.up_s_size <= size
    &&& l.up_b_off + l.up_b_size <= size
    &&& l.down_w_off + l.down_w_size <= size
    &&& l.down_s_off + l.down_s_size <= size
    &&& l.down_b_off + l.down_b_size <= size
    &&& table_fits(
        l.gate_w_size as int / 4,
        l.gate_s_size as int / 2,
        l.gate_b_size as int / 2,
        inter,
        hidden,
        64,
    )
    &&& table_fits(
        l.up_w_size as int / 4,
        l.up_s_size as int / 2,
        l.up_b_size as int / 2,
        inter,
        hidden,
        64,
    )
    &&& table_fits(
        l.down_w_size as int / 4,
        l.down_s_size as int / 2,
        l.down_b_size as int / 2,
        hidden,
        inter,
        64,
    )
}

/// The output of an expert: two projections, the activation of the one times the other, and a
/// projection back.
pub open spec fn expert_out<A: Arith>(
    b: Seq<u8>,
    l: ExpertLayout,
    x: Seq<F32>,
    inter: int,
) -> Seq<F32> {
    product::<A>(
        down_parts(b, l),
        swiglu::<A>(
            product::<A>(gate_parts(b, l), x, inter),
            product::<A>(up_parts(b, l), x, inter),
        ),
        x.len() as int,
    )
}

fn matvec_at<A: Arith>(
    b: &[u8],
    w_off: usize,
    w_size: usize,
    s_off: usize,
    s_size: usize,
    b_off: usize,
    b_size: usize,
    x: &[F32],
    rows: usize,
) -> (r: Vec<F32>)
    requires
        w_off + w_size <= b@.len(),
        s_off + s_size <= b@.len(),
        b_off + b_size <= b@.len(),
        parts_fit(
            parts_at(
                b@,
                w_off as int,
                w_size as int,
                s_off as int,
                s_size as int,
                b_off as int,
                b_size as int,
            ),
            rows as int,
            x@.len() as int,
        ),
    ensures
        r@.len() == rows,
        deterministic::<A>() ==> r@ == product::<A>(
            parts_at(
                b@,
                w_off as int,
                w_size as int,
                s_off as int,
                s_size as int,
                b_off as int,
                b_size as int,
            ),
            x@,
            rows as int,
        ),
{
    let w: Vec<u32> = bytes_to_u32s(b, w_off, w_size / 4);
    let s: Vec<u16> = bytes_to_u16s(b, s_off, s_size / 2);
    let bi: Vec<u16> = bytes_to_u16s(b, b_off, b_size / 2);
    let m: QMatrix = QMatrix { w: w.as_slice(), s: s.as_slice(), b: bi.as_slice() };
    proof {
        let p = parts_at(
            b@,
            w_off as int,
            w_size as int,
            s_off as int,
            s_size as int,
            b_off as int,
            b_size as int,
        );
        assert(m@.w =~= p.w);
        assert(m@.s =~= p.s);
        assert(m@.b =~= p.b);
    }
    cpu_dequant_matvec_4bit::<A>(&m, x, rows)
}

/// Runs an expert on a vector, from the expert's bytes.
pub fn run_expert<A: Arith>(b: &[u8], l: &ExpertLayout, x: &[F32], inter: usize) -> (r: Vec<F32>)
    requires
        layout_fits(*l, b@.len() as int, x@.len() as int, inter as int),
    ensures
        r@.len() == x@.len(),
        deterministic::<A>() ==> r@ == expert_out::<A>(b@, *l, x@, inter as int),
{
    proof {
        assert(parts_fit(gate_parts(b@, *l), inter as int, x@.len() as int));
        assert(parts_fit(up_parts(b@, *l), inter as int, x@.len() as int));
        assert(parts_fit(down_parts(b@, *l), x@.len() as int, inter as int));
    }
    let g: Vec<F32> = matvec_at::<A>(
        b,
        l.gate_w_off,
        l.gate_w_size,
        l.gate_s_off,
        l.gate_s_size,
        l.gate_b_off,
        l.gate_b_size,
        x,
        inter,
    );
    let u: Vec<F32> = matvec_at::<A>(
        b,
        l.up_w_off,
        l.up_w_size,
        l.up_s_off,
        l.up_s_size,
        l.up_b_off,
        l.up_b_size,
        x,
        inter,
    );
    let act: Vec<F32> = cpu_swiglu::<A>(g.as_slice(), u.as_slice());
    matvec_at::<A>(
        b,
        l.down_w_off,
        l.down_w_size,
        l.down_s_off,
        l.down_s_size,
        l.down_b_off,
        l.down_b_size,
        act.as_slice(),
        x.len(),
    )
}

/// A sum with one more vector, times its weight.
pub open spec fn plus_weighted<A: Arith>(sum: Seq<F32>, x: Seq<F32>, w: F32) -> Seq<F32> {
    Seq::new(sum.len(), |i: int| fadd::<A>(sum[i], fmul::<A>(x[i], w)))
}

fn add_weighted<A: Arith>(sum: &Vec<F32>, x: &Vec<F32>, w: F32) -> (r: Vec<F32>)
    requires
        sum@.len() <= x@.len(),
    ensures
        r@.len() == sum@.len(),
        deterministic::<A>() ==> r@ == plus_weighted::<A>(sum@, x@, w),
{
    let mut out: Vec<F32> = Vec::new();
    for i in 0..sum.len()
        invariant
            sum@.len() <= x@.len(),
            out@.len() == i,
            deterministic::<A>() ==> forall|j: int|
                0 <= j < i ==> #[trigger] out@[j] == fadd::<A>(
                    sum@[j],
                    fmul::<A>(x@[j], w),
                ),
    {
        out.push(A::add(sum[i], A::mul(x[i], w)));
    }
    out
}

/// The outputs that a device computed, each times the weight at its place, summed from zeros on.
pub open spec fn device_sum<A: Arith>(
    outs: Seq<Vec<F32>>,
    weights: Seq<F32>,
    hidden: int,
    n: int,
) -> Seq<F32>
    decreases n,
{
    if n <= 0 {
        zero_seq(hidden)
    } else {
        plus_weighted::<A>(
            device_sum::<A>(outs, weights, hidden, n - 1),
            outs[n - 1]@,
            weights[n - 1],
        )
    }
}

/// What was read of each expert.
pub open spec fn seen(reads: Seq<Option<Vec<u8>>>) -> Seq<Option<Seq<u8>>> {
    Seq::new(
        reads.len(),
        |i: int|
            match reads[i] {
                Some(b) => Some(b@),
                None => None,
            },
    )
}

/// The outputs of the first `n` chosen experts whose bytes could be read, each times its weight,
/// added to `start`.
pub open spec fn experts_sum<A: Arith>(
    start: Seq<F32>,
    reads: Seq<Option<Seq<u8>>>,
    weights: Seq<F32>,
    l: ExpertLayout,
    x: Seq<F32>,
    inter: int,
    n: int,
) -> Seq<F32>
    decreases n,
{
    if n <= 0 {
        start
    } else {
        let before = experts_sum::<A>(start, reads, weights, l, x, inter, n - 1);
        match reads[n - 1] {
            Some(b) => plus_weighted::<A>(
                before,
                expert_out::<A>(b, l, x, inter),
                weights[n - 1],
            ),
            None => before,
        }
    }
}

/// Every number equals zero.
pub open spec fn all_zero(x: Seq<F32>) -> bool {
    forall|i: int| 0 <= i < x.len() ==> feq(#[trigger] x[i], zero())
}

fn is_all_zero(x: &Vec<F32>) -> (r: bool)
    ensures
        r == all_zero(x@),
{
    for i in 0..x.len()
        invariant
            forall|j: int| 0 <= j < i ==> feq(#[trigger] x@[j], zero()),
    {
        if !x[i].same(zero()) {
            assert(!feq(x@[i as int], zero()));
            return false;
        }
    }
    true
}

/// The sum of the chosen experts: what the device computed, or, where that is all zero, what the
/// experts' bytes give.
pub open spec fn experts_total<A: Arith>(
    outs: Seq<Vec<F32>>,
    reads: Seq<Option<Seq<u8>>>,
    weights: Seq<F32>,
    l: ExpertLayout,
    x: Seq<F32>,
    inter: int,
) -> Seq<F32> {
    let n = if outs.len() <= weights.len() {
        outs.len() as int
    } else {
        weights.len() as int
    };
    let m = if reads.len() <= weights.len() {
        reads.len() as int
    } else {
        weights.len() as int
    };
    let d = device_sum::<A>(outs, weights, x.len() as int, n);
    if all_zero(d) {
        experts_sum::<A>(d, reads, weights, l, x, inter, m)
    } else {
        d
    }
}

/// Sums the chosen experts.
pub fn sum_experts<A: Arith>(
    outs: &Vec<Vec<F32>>,
    reads: &Vec<Option<Vec<u8>>>,
    weights: &Vec<F32>,
    l: &ExpertLayout,
    x: &[F32],
    inter: usize,
    expert_size: usize,
) -> (r: Vec<F32>)
    requires
        forall|i: int| 0 <= i < outs@.len() ==> (#[trigger] outs@[i])@.len() == x@.len(),
        whole_reads(reads@, expert_size as int),
        layout_fits(*l, expert_size as int, x@.len() as int, inter as int),
    ensures
        r@.len() == x@.len(),
        deterministic::<A>() ==> r@ == experts_total::<A>(
            outs@,
            seen(reads@),
            weights@,
            *l,
            x@,
            inter as int,
        ),
{
    let hidden: usize = x.len();
    let n: usize = if outs.len() <= weights.len() {
        outs.len()
    } else {
        weights.len()
    };
    let mut sum: Vec<F32> = zeros(hidden);
    for i in 0..n
        invariant
            n <= outs@.len(),
            n <= weights@.len(),
            hidden == x@.len(),
            sum@.len() == hidden,
            forall|i: int| 0 <= i < outs@.len() ==> (#[trigger] outs@[i])@.len() == x@.len(),
            deterministic::<A>() ==> sum@ == device_sum::<A>(
                outs@,
                weights@,
                hidden as int,
                i as int,
            ),
    {
        assert(outs@[i as int]@.len() == x@.len());
        sum = add_weighted::<A>(&sum, &outs[i], weights[i]);
    }
    if is_all_zero(&sum) {
        let ghost start = sum@;
        let m: usize = if reads.len() <= weights.len() {
            reads.len()
        } else {
            weights.len()
        };
        for i in 0..m
            invariant
                m <= reads@.len(),
                m <= weights@.len(),
                hidden == x@.len(),
                sum@.len() == hidden,
                layout_fits(*l, expert_size as int, x@.len() as int, inter as int),
                whole_reads(reads@, expert_size as int),
                deterministic::<A>() ==> sum@ == experts_sum::<A>(
                    start,
                    seen(reads@),
                    weights@,
                    *l,
                    x@,
                    inter as int,
                    i as int,
                ),
        {
            match &reads[i] {
                Some(b) => {
                    assert(reads@[i as int] matches Some(b) ==> b@.len() == expert_size);
                    let eout: Vec<F32> = run_expert::<A>(b.as_slice(), l, x, inter);
                    sum = add_weighted::<A>(&sum, &eout, weights[i]);
                },
                None => {},
            }
        }
    }
    sum
}

/// The vectors of a layer's block before its experts run.
pub struct MoeInput {
    pub h_post: Vec<F32>,
    pub gate_scores: Vec<F32>,
    pub shared_gate: Vec<F32>,
    pub shared_up: Vec<F32>,
    pub shared_gate_score: F32,
}

/// The vector that the experts of a layer run on.
pub open spec fn post_normed<A: Arith>(
    ws: Weights,
    layer: int,
    hidden: Seq<F32>,
    order: SumOrder,
) -> Seq<F32> {
    normed_by::<A>(ws, in_layer(layer, ".post_attention_layernorm.weight"@), hidden, order)
}

/// The score of the shared expert: zero without a matrix.
pub open spec fn shared_score<A: Arith>(ws: Weights, layer: int, x: Seq<F32>) -> F32 {
    match matrix_of(ws, in_layer(layer, ".mlp.shared_expert_gate"@)) {
        Some(m) => product::<A>(m, x, 1)[0],
        None => zero(),
    }
}

/// The projections of a layer's block, where they are there, have the right sizes.
pub open spec fn moe_weights_fit(ws: Weights, layer: int, c: ModelConfig) -> bool {
    let hidden = c.hidden_dim as int;
    &&& norm_fits(ws, in_layer(layer, ".post_attention_layernorm.weight"@), hidden)
    &&& named_fits(ws, in_layer(layer, ".mlp.gate"@), c.num_experts as int, hidden)
    &&& named_fits(
        ws,
        in_layer(layer, ".mlp.shared_expert.gate_proj"@),
        c.shared_intermediate as int,
        hidden,
    )
    &&& named_fits(
        ws,
        in_layer(layer, ".mlp.shared_expert.up_proj"@),
        c.shared_intermediate as int,
        hidden,
    )
    &&& named_fits(ws, in_layer(layer, ".mlp.shared_expert_gate"@), 1, hidden)
    &&& named_fits(
        ws,
        in_layer(layer, ".mlp.shared_expert.down_proj"@),
        hidden,
        c.shared_intermediate as int,
    )
}

/// The vectors before the experts run, on a normed vector.
pub open spec fn moe_input<A: Arith>(
    ws: Weights,
    layer: int,
    x: Seq<F32>,
    c: ModelConfig,
    r: MoeInput,
) -> bool {
    &&& r.h_post@ == x
    &&& r.gate_scores@ == projected::<A>(
        ws,
        in_layer(layer, ".mlp.gate"@),
        x,
        c.num_experts as int,
    )
    &&& r.shared_gate@ == projected::<A>(
        ws,
        in_layer(layer, ".mlp.shared_expert.gate_proj"@),
        x,
        c.shared_intermediate as int,
    )
    &&& r.shared_up@ == projected::<A>(
        ws,
        in_layer(layer, ".mlp.shared_expert.up_proj"@),
        x,
        c.shared_intermediate as int,
    )
    &&& r.shared_gate_score == shared_score::<A>(ws, layer, x)
}

/// Runs the projections of a layer's block on a normed vector.
pub fn moe_projections<A: Arith>(ws: &Weights, layer_idx: usize, h_post: Vec<F32>, c: &ModelConfig) -> (r:
    MoeInput)
    requires
        h_post@.len() == c.hidden_dim,
        moe_weights_fit(*ws, layer_idx as int, *c),
    ensures
        r.h_post == h_post,
        r.gate_scores@.len() == c.num_experts,
        r.shared_gate@.len() == c.shared_intermediate,
        r.shared_up@.len() == c.shared_intermediate,
        deterministic::<A>() ==> moe_input::<A>(*ws, layer_idx as int, h_post@, *c, r),
{
    let gn: String = layer_name(layer_idx, ".mlp.gate");
    let gate_scores: Vec<F32> = project::<A>(ws, gn.as_str(), h_post.as_slice(), c.num_experts);
    let sn: String = layer_name(layer_idx, ".mlp.shared_expert.gate_proj");
    let shared_gate: Vec<F32> = project::<A>(
        ws,
        sn.as_str(),
        h_post.as_slice(),
        c.shared_intermediate,
    );
    let un: String = layer_name(layer_idx, ".mlp.shared_expert.up_proj");
    let shared_up: Vec<F32> = project::<A>(
        ws,
        un.as_str(),
        h_post.as_slice(),
        c.shared_intermediate,
    );
    let en: String = layer_name(layer_idx, ".mlp.shared_expert_gate");
    let shared_gate_score: F32 = match get_matrix(ws, en.as_str()) {
        Some(m) => {
            let one_row: Vec<F32> = cpu_dequant_matvec_4bit::<A>(&m, h_post.as_slice(), 1);
            one_row[0]
        },
        None => zero(),
    };
    MoeInput { h_post, gate_scores, shared_gate, shared_up, shared_gate_score }
}

/// The hidden vector after the block: the residual, plus the chosen experts, plus the shared
/// expert times the logistic function of its score.
pub open spec fn combined<A: Arith>(
    h_mid: Seq<F32>,
    moe_out: Seq<F32>,
    shared_out: Seq<F32>,
    shared_score: F32,
) -> Seq<F32> {
    Seq::new(
        h_mid.len(),
        |i: int|
            fadd::<A>(
                fadd::<A>(h_mid[i], moe_out[i]),
                fmul::<A>(fsigmoid::<A>(shared_score), shared_out[i]),
            ),
    )
}

/// The sum of residual, chosen experts and shared expert.
pub fn combine<A: Arith>(h_mid: &[F32], moe_out: &[F32], shared_out: &[F32], score: F32) -> (r: Vec<
    F32,
>)
    requires
        h_mid@.len() <= moe_out@.len(),
        h_mid@.len() <= shared_out@.len(),
    ensures
        r@.len() == h_mid@.len(),
        deterministic::<A>() ==> r@ == combined::<A>(h_mid@, moe_out@, shared_out@, score),
{
    let shared_weight: F32 = cpu_sigmoid::<A>(score);
    let mut out: Vec<F32> = Vec::new();
    for i in 0..h_mid.len()
        invariant
            h_mid@.len() <= moe_out@.len(),
            h_mid@.len() <= shared_out@.len(),
            out@.len() == i,
            deterministic::<A>() ==> shared_weight == fsigmoid::<A>(score),
            deterministic::<A>() ==> forall|j: int|
                0 <= j < i ==> #[trigger] out@[j] == fadd::<A>(
                    fadd::<A>(h_mid@[j], moe_out@[j]),
                    fmul::<A>(fsigmoid::<A>(score), shared_out@[j]),
                ),
    {
        out.push(A::add(A::add(h_mid[i], moe_out[i]), A::mul(shared_weight, shared_out[i])));
    }
    out
}

/// The hidden vector after the block, given the shared expert's projections and score, and what
/// was read and computed for the chosen experts.
pub open spec fn moe_result<A: Arith>(
    ws: Weights,
    layer: int,
    h_mid: Seq<F32>,
    x: Seq<F32>,
    shared_gate: Seq<F32>,
    shared_up: Seq<F32>,
    score: F32,
    outs: Seq<Vec<F32>>,
    reads: Seq<Option<Seq<u8>>>,
    weights: Seq<F32>,
    c: ModelConfig,
) -> Seq<F32> {
    combined::<A>(
        h_mid,
        experts_total::<A>(
            outs,
            reads,
            weights,
            c.expert_layout_4bit,
            x,
            c.moe_intermediate as int,
        ),
        projected::<A>(
            ws,
            in_layer(layer, ".mlp.shared_expert.down_proj"@),
            swiglu::<A>(shared_gate, shared_up),
            c.hidden_dim as int,
        ),
        score,
    )
}

/// The layout of the experts fits the sizes of a model.
pub open spec fn experts_fit(c: ModelConfig) -> bool {
    layout_fits(
        c.expert_layout_4bit,
        c.expert_size_4bit as int,
        c.hidden_dim as int,
        c.moe_intermediate as int,
    )
}

/// Each expert that was read has the right number of bytes.
pub open spec fn whole_reads(reads: Seq<Option<Vec<u8>>>, size: int) -> bool {
    forall|i: int|
        0 <= i < reads.len() ==> (#[trigger] reads[i] matches Some(b) ==> b@.len() == size)
}

/// Finishes the block: sums the chosen experts, runs the shared expert, and adds both to the
/// residual. `outs` is what a device computed for the experts, and empty without one; `reads` is
/// what was read for each chosen expert.
pub fn moe_finish<A: Arith>(
    ws: &Weights,
    layer_idx: usize,
    h_mid: &[F32],
    input: &MoeInput,
    outs: &Vec<Vec<F32>>,
    reads: &Vec<Option<Vec<u8>>>,
    weights: &Vec<F32>,
    c: &ModelConfig,
) -> (r: Vec<F32>)
    requires
        h_mid@.len() == c.hidden_dim,
        input.h_post@.len() == c.hidden_dim,
        input.shared_gate@.len() == c.shared_intermediate,
        input.shared_up@.len() == c.shared_intermediate,
        moe_weights_fit(*ws, layer_idx as int, *c),
        forall|i: int| 0 <= i < outs@.len() ==> (#[trigger] outs@[i])@.len() == c.hidden_dim,
        whole_reads(reads@, c.expert_size_4bit as int),
        experts_fit(*c),
    ensures
        r@.len() == h_mid@.len(),
        deterministic::<A>() ==> r@ == moe_result::<A>(
            *ws,
            layer_idx as int,
            h_mid@,
            input.h_post@,
            input.shared_gate@,
            input.shared_up@,
            input.shared_gate_score,
            outs@,
            seen(reads@),
            weights@,
            *c,
        ),
{
    let moe_out: Vec<F32> = sum_experts::<A>(
        outs,
        reads,
        weights,
        &c.expert_layout_4bit,
        input.h_post.as_slice(),
        c.moe_intermediate,
        c.expert_size_4bit,
    );
    let act: Vec<F32> = cpu_swiglu::<A>(
        input.shared_gate.as_slice(),
        input.shared_up.as_slice(),
    );
    let dn: String = layer_name(layer_idx, ".mlp.shared_expert.down_proj");
    let shared_out: Vec<F32> = project::<A>(ws, dn.as_str(), act.as_slice(), c.hidden_dim);
    combine::<A>(
        h_mid,
        moe_out.as_slice(),
        shared_out.as_slice(),
        input.shared_gate_score,
    )
}

/// What reading the chosen experts gives: the bytes of each, where it is there.
pub open spec fn chosen_reads(experts: Seq<Option<Vec<u8>>>, chosen: Seq<(F32, int)>) -> Seq<
    Option<Seq<u8>>,
> {
    Seq::new(
        chosen.len(),
        |i: int|
            if 0 <= chosen[i].1 < experts.len() {
                seen(experts)[chosen[i].1]
            } else {
                None
            },
    )
}

/// The hidden vector after the block of a layer whose experts have the given bytes.
pub open spec fn moe_after<A: Arith>(
    ws: Weights,
    layer: int,
    hidden: Seq<F32>,
    x: Seq<F32>,
    experts: Seq<Option<Vec<u8>>>,
    c: ModelConfig,
    order: SumOrder,
) -> Seq<F32> {
    let scores = projected::<A>(ws, in_layer(layer, ".mlp.gate"@), x, c.num_experts as int);
    let k = c.num_experts_per_tok as int;
    moe_result::<A>(
        ws,
        layer,
        hidden,
        x,
        projected::<A>(
            ws,
            in_layer(layer, ".mlp.shared_expert.gate_proj"@),
            x,
            c.shared_intermediate as int,
        ),
        projected::<A>(
            ws,
            in_layer(layer, ".mlp.shared_expert.up_proj"@),
            x,
            c.shared_intermediate as int,
        ),
        shared_score::<A>(ws, layer, x),
        Seq::empty(),
        chosen_reads(experts, routing::<A>(scores, k, order)),
        routing_weights::<A>(scores, k, order),
        c,
    )
}

fn copy_bytes(b: &Vec<u8>) -> (r: Vec<u8>)
    ensures
        r@ == b@,
{
    let mut out: Vec<u8> = Vec::new();
    for i in 0..b.len()
        invariant
            out@ == b@.take(i as int),
    {
        out.push(b[i]);
        assert(b@.take(i + 1) =~= b@.take(i as int).push(b@[i as int]));
    }
    assert(b@.take(b@.len() as int) =~= b@);
    out
}

fn take_reads(experts: &Vec<Option<Vec<u8>>>, indices: &Vec<usize>, Ghost(size): Ghost<int>) -> (r:
    Vec<Option<Vec<u8>>>)
    requires
        whole_reads(experts@, size),
    ensures
        r@.len() == indices@.len(),
        whole_reads(r@, size),
        forall|i: int|
            0 <= i < indices@.len() ==> #[trigger] seen(r@)[i] == if indices@[i]
                < experts@.len() {
                seen(experts@)[indices@[i] as int]
            } else {
                None
            },
{
    let mut out: Vec<Option<Vec<u8>>> = Vec::new();
    for i in 0..indices.len()
        invariant
            whole_reads(experts@, size),
            out@.len() == i,
            whole_reads(out@, size),
            forall|j: int|
                0 <= j < i ==> #[trigger] seen(out@)[j] == if indices@[j] < experts@.len() {
                    seen(experts@)[indices@[j] as int]
                } else {
                    None
                },
    {
        let ghost before = out@;
        let e: usize = indices[i];
        if e < experts.len() {
            match &experts[e] {
                Some(b) => {
                    assert(experts@[e as int] matches Some(x) ==> x@.len() == size);
                    out.push(Some(copy_bytes(b)));
                },
                None => {
                    out.push(None);
                },
            }
        } else {
            out.push(None);
        }
        assert forall|j: int| 0 <= j < i + 1 implies #[trigger] seen(out@)[j] == if indices@[j]
            < experts@.len() {
            seen(experts@)[indices@[j] as int]
        } else {
            None
        } by {
            if j < i {
                assert(seen(out@)[j] == seen(before)[j]);
            }
        }
    }
    out
}

/// The block of a layer on a normed vector: routing, the chosen experts, the shared expert, and
/// their sum with the residual. `experts` holds the bytes of each expert that can be read.
pub fn moe_layer<A: Arith>(
    ws: &Weights,
    layer_idx: usize,
    hidden: &[F32],
    h_post: Vec<F32>,
    experts: &Vec<Option<Vec<u8>>>,
    c: &ModelConfig,
    order: SumOrder,
) -> (r: Vec<F32>)
    requires
        hidden@.len() == c.hidden_dim,
        h_post@.len() == c.hidden_dim,
        moe_weights_fit(*ws, layer_idx as int, *c),
        whole_reads(experts@, c.expert_size_4bit as int),
        experts_fit(*c),
        c.num_experts_per_tok <= usize::MAX / 2 - 1,
        c.num_experts > 0 ==> c.num_experts_per_tok > 0,
    ensures
        r@.len() == hidden@.len(),
        deterministic::<A>() ==> r@ == moe_after::<A>(
            *ws,
            layer_idx as int,
            hidden@,
            h_post@,
            experts@,
            *c,
            order,
        ),
{
    let input: MoeInput = moe_projections::<A>(ws, layer_idx, h_post, c);
    let (indices, weights) = route::<A>(input.gate_scores.as_slice(), c.num_experts_per_tok, order);
    let reads: Vec<Option<Vec<u8>>> = take_reads(
        experts,
        &indices,
        Ghost(c.expert_size_4bit as int),
    );
    proof {
        if deterministic::<A>() {
            let chosen = routing::<A>(input.gate_scores@, c.num_experts_per_tok as int, order);
            lemma_routing_len::<A>(input.gate_scores@, c.num_experts_per_tok as int, order);
            assert(seen(reads@) =~= chosen_reads(experts@, chosen)) by {
                assert forall|i: int| 0 <= i < indices@.len() implies seen(reads@)[i]
                    == chosen_reads(experts@, chosen)[i] by {
                    assert(indices@[i] == chosen[i].1);
                }
            }
        }
    }
    let outs: Vec<Vec<F32>> = Vec::new();
    moe_finish::<A>(ws, layer_idx, hidden, &input, &outs, &reads, &weights, c)
}

proof fn lemma_topk_len(h: Seq<(F32, int)>, scores: Seq<F32>, k: int, n: int)
    requires
        k <= h.len(),
        n > 0 ==> 0 < h.len(),
    ensures
        topk_of(h, scores, k, n).len() == h.len(),
    decreases n,
{
    if n > 0 {
        lemma_topk_len(h, scores, k, n - 1);
        crate::topk::lemma_step_len(topk_of(h, scores, k, n - 1), scores, k, n - 1);
    }
}

proof fn lemma_routing_len<A: Arith>(scores: Seq<F32>, k: int, order: SumOrder)
    requires
        k >= 0,
        scores.len() > 0 ==> k > 0,
    ensures
        routing::<A>(scores, k, order).len() == k,
{
    lemma_topk_len(
        Seq::new(k as nat, |i: int| (zero(), 0int)),
        softmax::<A>(scores, order),
        k,
        scores.len() as int,
    );
}

/// Norm and block of a layer.
pub fn moe_layer_forward<A: Arith>(
    ws: &Weights,
    layer_idx: usize,
    hidden: &mut Vec<F32>,
    experts: &Vec<Option<Vec<u8>>>,
    c: &ModelConfig,
)
    requires
        old(hidden)@.len() == c.hidden_dim,
        c.hidden_dim <= i64::MAX,
        moe_weights_fit(*ws, layer_idx as int, *c),
        whole_reads(experts@, c.expert_size_4bit as int),
        experts_fit(*c),
        c.num_experts_per_tok <= usize::MAX / 2 - 1,
        c.num_experts > 0 ==> c.num_experts_per_tok > 0,
    ensures
        final(hidden)@.len() == old(hidden)@.len(),
        deterministic::<A>() ==> final(hidden)@ == moe_after::<A>(
            *ws,
            layer_idx as int,
            old(hidden)@,
            post_normed::<A>(*ws, layer_idx as int, old(hidden)@, SumOrder::LeftToRight),
            experts@,
            *c,
            SumOrder::LeftToRight,
        ),
{
    let name: String = layer_name(layer_idx, ".post_attention_layernorm.weight");
    let order: SumOrder = SumOrder::LeftToRight;
    let h_post: Vec<F32> = norm_by::<A>(ws, name.as_str(), hidden.as_slice(), order);
    let out: Vec<F32> = moe_layer::<A>(
        ws,
        layer_idx,
        hidden.as_slice(),
        h_post,
        experts,
        c,
        order,
    );
    *hidden = out;
}

/// The routing of scores whose exponentials over their sum are numbers chooses as many experts as
/// asked for, or all where there are fewer, none twice, and none that is left out has a larger
/// share than one that is chosen.
pub proof fn law_routing<A: Arith>(scores: Seq<F32>, k: int, order: SumOrder)
    requires
        0 < k,
        forall|i: int| 0 <= i < scores.len() ==> !nan(#[trigger] softmax::<A>(scores, order)[i]),
    ensures
        routing::<A>(scores, k, order).len() == k,
        chosen(
            routing::<A>(scores, k, order),
            in_use(k, scores.len() as int),
            softmax::<A>(scores, order),
            scores.len() as int,
        ),
{
    let p = softmax::<A>(scores, order);
    law_topk(
        Seq::new(k as nat, |i: int| (zero(), 0int)),
        p,
        k,
        scores.len() as int,
    );
}

} // verus!
