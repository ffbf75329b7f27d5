//! Linear attention with a gated delta rule, one token at a time.

use crate::bf16::{bf16_to_f32, of_bf16};
use crate::cache::{LinearAttnState, Recurrence, fresh_state};
use crate::constants::rms_norm_eps;
use crate::float::{
    Arith, F32, deterministic, fadd, fdiv, fexp, ffrom_int, fln, fmul, fneg, fsqrt, fsub, one, zero,
};
use crate::grid::{lemma_cell, lemma_flat};
use crate::math::{
    SumOrder, add_vec, added, cpu_rms_norm_bare, cpu_rms_norm_gated, cpu_sigmoid, cpu_silu,
    fsigmoid,    rms_norm_bare, rms_norm_gated, scale, scaled, silu_seq, zero_seq, zeros,
};
use crate::weights::{
    Weights, f32s_of, in_layer, layer_name, named_fits, norm_by, norm_fits, normed_by, project,
    projected, u16s_of,
};
use vstd::prelude::*;
use vstd::slice::slice_subrange;

verus! {

/// The sizes of linear attention.
#[derive(Clone, Copy)]
pub struct LinDims {
    pub num_k_heads: usize,
    pub num_v_heads: usize,
    pub total_key: usize,
    pub total_value: usize,
    pub qkv_dim: usize,
}

impl LinDims {
    /// Numbers of a key head.
    pub open spec fn key_dim(self) -> int {
        self.total_key as int / self.num_k_heads as int
    }

    /// Numbers of a value head.
    pub open spec fn value_dim(self) -> int {
        self.total_value as int / self.num_v_heads as int
    }

    /// Which key head a value head uses.
    pub open spec fn key_head(self, vh: int) -> int {
        vh / (self.num_v_heads as int / self.num_k_heads as int)
    }

    /// The sizes fit together: every head lies within its vector, and the machine can address the
    /// states.
    pub open spec fn fit(self) -> bool {
        &&& self.num_k_heads > 0
        &&& self.num_v_heads >= self.num_k_heads
        &&& 2 * self.total_key + self.num_v_heads * self.value_dim() <= self.qkv_dim
        &&& self.qkv_dim * 4 <= usize::MAX
        &&& self.total_key <= i64::MAX
        &&& self.total_value <= i64::MAX
        &&& forall|vh: int|
            0 <= vh < self.num_v_heads ==> #[trigger] self.key_head(vh) * self.key_dim()
                + self.key_dim() <= self.total_key
    }
}

/// The first `n` earlier inputs of channel `c`, each times its weight, summed from zero on.
pub open spec fn conv_sum<A: Arith>(
    state: Seq<F32>,
    w: Seq<u16>,
    channels: int,
    kernel: int,
    c: int,
    n: int,
) -> F32
    decreases n,
{
    if n <= 0 {
        zero()
    } else {
        fadd::<A>(
            conv_sum::<A>(state, w, channels, kernel, c, n - 1),
            fmul::<A>(state[(n - 1) * channels + c], of_bf16(w[c * kernel + (n - 1)])),
        )
    }
}

/// A step of the convolution: each channel's last inputs and its new one, weighted and summed,
/// through the activation function.
pub open spec fn conv_step<A: Arith>(
    state: Seq<F32>,
    x: Seq<F32>,
    w: Seq<u16>,
    kernel: int,
) -> Seq<F32> {
    silu_seq::<A>(
        Seq::new(
            x.len(),
            |c: int|
                fadd::<A>(
                    conv_sum::<A>(state, w, x.len() as int, kernel, c, kernel - 1),
                    fmul::<A>(x[c], of_bf16(w[c * kernel + (kernel - 1)])),
                ),
        ),
    )
}

/// A step of the convolution.
pub fn cpu_conv1d_step<A: Arith>(
    conv_state: &[F32],
    new_input: &[F32],
    weight_bf16: &[u16],
    kernel_size: usize,
) -> (r: Vec<F32>)
    requires
        kernel_size > 0,
        (kernel_size - 1) * new_input@.len() <= conv_state@.len(),
        new_input@.len() * kernel_size <= weight_bf16@.len(),
    ensures
        r@.len() == new_input@.len(),
        deterministic::<A>() ==> r@ == conv_step::<A>(
            conv_state@,
            new_input@,
            weight_bf16@,
            kernel_size as int,
        ),
{
    let channels: usize = new_input.len();
    let mut out: Vec<F32> = Vec::new();
    assert(conv_state.len() == conv_state@.len() && weight_bf16.len() == weight_bf16@.len());
    for c in 0..channels
        invariant
            channels == new_input@.len(),
            kernel_size > 0,
            (kernel_size - 1) * channels <= conv_state@.len() <= usize::MAX,
            channels * kernel_size <= weight_bf16@.len() <= usize::MAX,
            out@.len() == c,
            deterministic::<A>() ==> forall|j: int|
                0 <= j < c ==> #[trigger] out@[j] == fadd::<A>(
                    conv_sum::<A>(
                        conv_state@,
                        weight_bf16@,
                        channels as int,
                        kernel_size as int,
                        j,
                        kernel_size - 1,
                    ),
                    fmul::<A>(
                        new_input@[j],
                        of_bf16(weight_bf16@[j * kernel_size + (kernel_size - 1)]),
                    ),
                ),
    {
        proof {
            lemma_cell(c as int, channels as int, kernel_size as int);
        }
        let mut acc: F32 = zero();
        for k in 0..kernel_size - 1
            invariant
                c < channels,
                kernel_size > 0,
                (kernel_size - 1) * channels <= conv_state@.len() <= usize::MAX,
                0 <= c * kernel_size,
                c * kernel_size + kernel_size <= weight_bf16@.len() <= usize::MAX,
                deterministic::<A>() ==> acc == conv_sum::<A>(
                    conv_state@,
                    weight_bf16@,
                    channels as int,
                    kernel_size as int,
                    c as int,
                    k as int,
                ),
        {
            proof {
                lemma_cell(k as int, kernel_size - 1, channels as int);
            }
            let w: F32 = bf16_to_f32(weight_bf16[c * kernel_size + k]);
            acc = A::add(acc, A::mul(conv_state[k * channels + c], w));
        }
        let w: F32 = bf16_to_f32(weight_bf16[c * kernel_size + (kernel_size - 1)]);
        out.push(A::add(acc, A::mul(new_input[c], w)));
    }
    let ghost sums = Seq::new(
        channels as nat,
        |c: int|
            fadd::<A>(
                conv_sum::<A>(
                    conv_state@,
                    weight_bf16@,
                    channels as int,
                    kernel_size as int,
                    c,
                    kernel_size - 1,
                ),
                fmul::<A>(new_input@[c], of_bf16(weight_bf16@[c * kernel_size + (kernel_size - 1)])),
            ),
    );
    assert(deterministic::<A>() ==> out@ =~= sums);
    cpu_silu::<A>(out.as_slice())
}

/// The last inputs after a new one: the oldest leaves.
pub open spec fn shifted(state: Seq<F32>, x: Seq<F32>) -> Seq<F32> {
    state.skip(x.len() as int) + x
}

fn shift_in(state: &Vec<F32>, x: &[F32]) -> (r: Vec<F32>)
    requires
        state@.len() == 3 * x@.len(),
    ensures
        r@ == shifted(state@, x@),
        r@.len() == state@.len(),
{
    let n: usize = x.len();
    let mut out: Vec<F32> = Vec::new();
    for i in n..state.len()
        invariant
            n <= i <= state@.len(),
            out@ == state@.subrange(n as int, i as int),
    {
        out.push(state[i]);
    }
    assert(out@ =~= state@.skip(n as int));
    for i in 0..n
        invariant
            n == x@.len(),
            out@ == state@.skip(n as int) + x@.take(i as int),
    {
        out.push(x[i]);
        assert(x@.take(i + 1) =~= x@.take(i as int).push(x@[i as int]));
    }
    assert(x@.take(n as int) =~= x@);
    out
}

/// The heads over their root mean squares, times a factor; zeros behind the last head.
pub open spec fn heads_scaled<A: Arith>(
    x: Seq<F32>,
    heads: int,
    dim: int,
    c: F32,
    order: SumOrder,
) -> Seq<F32> {
    Seq::new(
        x.len(),
        |i: int|
            if i < heads * dim {
                scaled::<A>(
                    rms_norm_bare::<A>(
                        x.subrange(i / dim * dim, i / dim * dim + dim),
                        rms_norm_eps(),
                        order,
                    ),
                    c,
                )[i % dim]
            } else {
                zero()
            },
    )
}

fn scale_heads<A: Arith>(
    x: &[F32],
    heads: usize,
    dim: usize,
    c: F32,
    order: SumOrder,
) -> (r: Vec<F32>)
    requires
        heads * dim <= x@.len(),
        dim <= i64::MAX,
    ensures
        r@.len() == x@.len(),
        deterministic::<A>() ==> r@ == heads_scaled::<A>(x@, heads as int, dim as int, c, order),
{
    let mut out: Vec<F32> = Vec::new();
    assert(0 * (dim as int) == 0);
    assert(x.len() == x@.len());
    let ghost target = heads_scaled::<A>(x@, heads as int, dim as int, c, order);
    for h in 0..heads
        invariant
            heads * dim <= x@.len() <= usize::MAX,
            dim <= i64::MAX,
            target == heads_scaled::<A>(x@, heads as int, dim as int, c, order),
            out@.len() == h * dim,
            deterministic::<A>() ==> forall|k: int|
                0 <= k < out@.len() ==> #[trigger] out@[k] == target[k],
    {
        proof {
            lemma_cell(h as int, heads as int, dim as int);
        }
        let part: &[F32] = slice_subrange(x, h * dim, h * dim + dim);
        let bare: Vec<F32> = cpu_rms_norm_bare::<A>(part, rms_norm_eps(), order);
        let mut done: Vec<F32> = scale::<A>(bare.as_slice(), c);
        let ghost before = out@;
        let ghost new = done@;
        out.append(&mut done);
        proof {
            if deterministic::<A>() {
                assert forall|k: int| 0 <= k < out@.len() implies #[trigger] out@[k] == target[k] by {
                    if k < before.len() {
                        assert(out@[k] == before[k]);
                    } else {
                        let t = k - before.len();
                        lemma_flat(h as int, t, dim as int);
                        assert(out@[k] == new[t]);
                    }
                }
            }
        }
    }
    let n: usize = x.len();
    let used: usize = out.len();
    for i in used..n
        invariant
            n == x@.len(),
            used == heads * dim,
            used <= i,
            out@.len() == i,
            target == heads_scaled::<A>(x@, heads as int, dim as int, c, order),
            deterministic::<A>() ==> forall|k: int|
                0 <= k < out@.len() ==> #[trigger] out@[k] == target[k],
    {
        out.push(zero());
    }
    assert(deterministic::<A>() ==> out@ =~= target);
    out
}

/// Products of the first `n` numbers at equal places, summed from zero on.
pub open spec fn dot_of<A: Arith>(a: Seq<F32>, b: Seq<F32>, n: int) -> F32
    decreases n,
{
    if n <= 0 {
        zero()
    } else {
        fadd::<A>(dot_of::<A>(a, b, n - 1), fmul::<A>(a[n - 1], b[n - 1]))
    }
}

fn dot_from_zero<A: Arith>(a: &Vec<F32>, b: &[F32]) -> (r: F32)
    requires
        a@.len() <= b@.len(),
    ensures
        deterministic::<A>() ==> r == dot_of::<A>(a@, b@, a@.len() as int),
{
    let mut acc: F32 = zero();
    for i in 0..a.len()
        invariant
            a@.len() <= b@.len(),
            deterministic::<A>() ==> acc == dot_of::<A>(a@, b@, i as int),
    {
        acc = A::add(acc, A::mul(a[i], b[i]));
    }
    acc
}

/// A row of a head's matrix after one token: it fades, and moves towards the value that the keys
/// should recall.
pub open spec fn row_after<A: Arith>(
    row: Seq<F32>,
    k: Seq<F32>,
    v: F32,
    decay: F32,
    beta: F32,
) -> Seq<F32> {
    let faded = scaled::<A>(row, decay);
    let delta = fmul::<A>(
        fsub::<A>(v, dot_of::<A>(faded, k, faded.len() as int)),
        beta,
    );
    Seq::new(row.len(), |i: int| fadd::<A>(faded[i], fmul::<A>(k[i], delta)))
}

fn update_row<A: Arith>(row: &[F32], k: &[F32], v: F32, decay: F32, beta: F32) -> (r: Vec<F32>)
    requires
        row@.len() == k@.len(),
    ensures
        r@.len() == row@.len(),
        deterministic::<A>() ==> r@ == row_after::<A>(row@, k@, v, decay, beta),
{
    let faded: Vec<F32> = scale::<A>(row, decay);
    let mem: F32 = dot_from_zero::<A>(&faded, k);
    let delta: F32 = A::mul(A::sub(v, mem), beta);
    let mut out: Vec<F32> = Vec::new();
    for i in 0..faded.len()
        invariant
            faded@.len() == k@.len(),
            out@.len() == i,
            deterministic::<A>() ==> forall|j: int|
                0 <= j < i ==> #[trigger] out@[j] == fadd::<A>(
                    faded@[j],
                    fmul::<A>(k@[j], delta),
                ),
    {
        out.push(A::add(faded[i], A::mul(k[i], delta)));
    }
    out
}

/// The rows of a head's matrix after one token, the first `n` of them, one behind the other.
pub open spec fn rows_after<A: Arith>(
    m: Seq<F32>,
    k: Seq<F32>,
    v: Seq<F32>,
    decay: F32,
    beta: F32,
    n: int,
) -> Seq<F32>
    decreases n,
{
    let kd = k.len() as int;
    if n <= 0 {
        Seq::empty()
    } else {
        rows_after::<A>(m, k, v, decay, beta, n - 1) + row_after::<A>(
            m.subrange((n - 1) * kd, (n - 1) * kd + kd),
            k,
            v[n - 1],
            decay,
            beta,
        )
    }
}

/// What a head reads for a query after one token: one number for each of the first `n` rows.
pub open spec fn rows_read<A: Arith>(
    m: Seq<F32>,
    k: Seq<F32>,
    q: Seq<F32>,
    v: Seq<F32>,
    decay: F32,
    beta: F32,
    n: int,
) -> Seq<F32> {
    let kd = k.len() as int;
    Seq::new(
        n as nat,
        |i: int|
            {
                let row = row_after::<A>(
                    m.subrange(i * kd, i * kd + kd),
                    k,
                    v[i],
                    decay,
                    beta,
                );
                dot_of::<A>(row, q, row.len() as int)
            },
    )
}

fn update_head<A: Arith>(
    m: &[F32],
    k: &[F32],
    q: &[F32],
    v: &[F32],
    decay: F32,
    beta: F32,
) -> (r: (Vec<F32>, Vec<F32>))
    requires
        m@.len() == v@.len() * k@.len(),
        q@.len() == k@.len(),
    ensures
        r.0@.len() == m@.len(),
        r.1@.len() == v@.len(),
        deterministic::<A>() ==> r.0@ == rows_after::<A>(
            m@,
            k@,
            v@,
            decay,
            beta,
            v@.len() as int,
        ),
        deterministic::<A>() ==> r.1@ == rows_read::<A>(
            m@,
            k@,
            q@,
            v@,
            decay,
            beta,
            v@.len() as int,
        ),
{
    let kd: usize = k.len();
    let mut state: Vec<F32> = Vec::new();
    let mut out: Vec<F32> = Vec::new();
    assert(0 * (kd as int) == 0);
    assert(m.len() == m@.len());
    for i in 0..v.len()
        invariant
            kd == k@.len(),
            m@.len() == v@.len() * kd,
            m@.len() <= usize::MAX,
            q@.len() == k@.len(),
            state@.len() == i * kd,
            out@.len() == i,
            deterministic::<A>() ==> state@ == rows_after::<A>(m@, k@, v@, decay, beta, i as int),
            deterministic::<A>() ==> out@ == rows_read::<A>(
                m@,
                k@,
                q@,
                v@,
                decay,
                beta,
                i as int,
            ),
    {
        proof {
            lemma_cell(i as int, v@.len() as int, kd as int);
        }
        let row: &[F32] = slice_subrange(m, i * kd, i * kd + kd);
        let mut new: Vec<F32> = update_row::<A>(row, k, v[i], decay, beta);
        out.push(dot_from_zero::<A>(&new, q));
        state.append(&mut new);
        proof {
            if deterministic::<A>() {
                assert(out@ =~= rows_read::<A>(m@, k@, q@, v@, decay, beta, i + 1));
            }
        }
    }
    (state, out)
}

/// How much of its state a value head keeps: `exp(-exp(a) * ln(1 + exp(alpha + dt)))`.
pub open spec fn decay_of<A: Arith>(
    ws: Weights,
    layer: int,
    alpha: Seq<F32>,
    vh: int,
) -> F32 {
    let a = match f32s_of(ws, in_layer(layer, ".linear_attn.A_log"@)) {
        Some(s) => s[vh],
        None => one(),
    };
    let dt = match u16s_of(ws, in_layer(layer, ".linear_attn.dt_bias"@)) {
        Some(s) => of_bf16(s[vh]),
        None => zero(),
    };
    let softplus = fln::<A>(fadd::<A>(one(), fexp::<A>(fadd::<A>(alpha[vh], dt))));
    fexp::<A>(fmul::<A>(fneg(fexp::<A>(a)), softplus))
}

/// What linear attention needs of the small tensors of a layer, where they are there.
pub open spec fn lin_tensors_fit(ws: Weights, layer: int, d: LinDims) -> bool {
    &&& f32s_of(ws, in_layer(layer, ".linear_attn.A_log"@)) matches Some(s) ==> d.num_v_heads
        <= s.len()
    &&& u16s_of(ws, in_layer(layer, ".linear_attn.dt_bias"@)) matches Some(s) ==> d.num_v_heads
        <= s.len()
    &&& u16s_of(ws, in_layer(layer, ".linear_attn.conv1d.weight"@)) matches Some(s) ==> d.qkv_dim
        * 4 <= s.len()
    &&& u16s_of(ws, in_layer(layer, ".linear_attn.norm.weight"@)) matches Some(s) ==> d.value_dim()
        <= s.len()
}

fn decay<A: Arith>(ws: &Weights, layer_idx: usize, alpha: &Vec<F32>, vh: usize, d: &LinDims) -> (r:
    F32)
    requires
        lin_tensors_fit(*ws, layer_idx as int, *d),
        vh < d.num_v_heads,
        d.num_v_heads <= alpha@.len(),
    ensures
        deterministic::<A>() ==> r == decay_of::<A>(*ws, layer_idx as int, alpha@, vh as int),
{
    let an: String = layer_name(layer_idx, ".linear_attn.A_log");
    let a: F32 = match ws.get_tensor_f32(an.as_str()) {
        Some(s) => s[vh],
        None => one(),
    };
    let dn: String = layer_name(layer_idx, ".linear_attn.dt_bias");
    let dt: F32 = match ws.get_tensor_u16(dn.as_str()) {
        Some(s) => bf16_to_f32(s[vh]),
        None => zero(),
    };
    let softplus: F32 = A::ln(A::add(one(), A::exp(A::add(alpha[vh], dt))));
    A::exp(A::mul(A::exp(a).neg(), softplus))
}

/// The vectors of one token that the recurrence runs on.
pub struct TokenParts {
    pub q: Seq<F32>,
    pub k: Seq<F32>,
    pub v: Seq<F32>,
    pub alpha: Seq<F32>,
    pub beta: Seq<F32>,
}

/// The matrix of a value head.
pub open spec fn head_matrix(ssm: Seq<F32>, d: LinDims, vh: int) -> Seq<F32> {
    let size = d.value_dim() * d.key_dim();
    ssm.subrange(vh * size, vh * size + size)
}

/// The part of a vector of keys or queries that a value head uses.
pub open spec fn key_part(x: Seq<F32>, d: LinDims, vh: int) -> Seq<F32> {
    let at = d.key_head(vh) * d.key_dim();
    x.subrange(at, at + d.key_dim())
}

/// The part of a vector of values that a value head uses.
pub open spec fn value_part(x: Seq<F32>, d: LinDims, vh: int) -> Seq<F32> {
    x.subrange(vh * d.value_dim(), vh * d.value_dim() + d.value_dim())
}

/// The matrices of the first `n` value heads after a token.
pub open spec fn ssm_after<A: Arith>(
    ws: Weights,
    layer: int,
    ssm: Seq<F32>,
    t: TokenParts,
    d: LinDims,
    n: int,
) -> Seq<F32>
    decreases n,
{
    if n <= 0 {
        Seq::empty()
    } else {
        ssm_after::<A>(ws, layer, ssm, t, d, n - 1) + rows_after::<A>(
            head_matrix(ssm, d, n - 1),
            key_part(t.k, d, n - 1),
            value_part(t.v, d, n - 1),
            decay_of::<A>(ws, layer, t.alpha, n - 1),
            fsigmoid::<A>(t.beta[n - 1]),
            d.value_dim(),
        )
    }
}

/// The state of the recurrence after a token: the matrices of all value heads, and what is behind
/// them as it was.
pub open spec fn ssm_next<A: Arith>(
    ws: Weights,
    layer: int,
    ssm: Seq<F32>,
    t: TokenParts,
    d: LinDims,
) -> Seq<F32> {
    let n = d.num_v_heads as int;
    ssm_after::<A>(ws, layer, ssm, t, d, n) + ssm.skip(n * (d.value_dim() * d.key_dim()))
}

/// What the first `n` value heads read after a token.
pub open spec fn ssm_read<A: Arith>(
    ws: Weights,
    layer: int,
    ssm: Seq<F32>,
    t: TokenParts,
    d: LinDims,
    n: int,
) -> Seq<F32>
    decreases n,
{
    if n <= 0 {
        Seq::empty()
    } else {
        ssm_read::<A>(ws, layer, ssm, t, d, n - 1) + rows_read::<A>(
            head_matrix(ssm, d, n - 1),
            key_part(t.k, d, n - 1),
            key_part(t.q, d, n - 1),
            value_part(t.v, d, n - 1),
            decay_of::<A>(ws, layer, t.alpha, n - 1),
            fsigmoid::<A>(t.beta[n - 1]),
            d.value_dim(),
        )
    }
}

fn recur<A: Arith>(
    ws: &Weights,
    layer_idx: usize,
    ssm: &Vec<F32>,
    q: &Vec<F32>,
    k: &Vec<F32>,
    v: &Vec<F32>,
    alpha: &Vec<F32>,
    beta: &Vec<F32>,
    d: &LinDims,
) -> (r: (Vec<F32>, Vec<F32>))
    requires
        d.fit(),
        lin_tensors_fit(*ws, layer_idx as int, *d),
        d.num_v_heads * (d.value_dim() * d.key_dim()) <= ssm@.len(),
        q@.len() == d.total_key,
        k@.len() == d.total_key,
        d.num_v_heads * d.value_dim() <= v@.len(),
        alpha@.len() == d.num_v_heads,
        beta@.len() == d.num_v_heads,
    ensures
        r.0@.len() == ssm@.len(),
        r.1@.len() == d.num_v_heads * d.value_dim(),
        deterministic::<A>() ==> r.0@ == ssm_next::<A>(
            *ws,
            layer_idx as int,
            ssm@,
            (TokenParts { q: q@, k: k@, v: v@, alpha: alpha@, beta: beta@ }),
            *d,
        ),
        deterministic::<A>() ==> r.1@ == ssm_read::<A>(
            *ws,
            layer_idx as int,
            ssm@,
            (TokenParts { q: q@, k: k@, v: v@, alpha: alpha@, beta: beta@ }),
            *d,
            d.num_v_heads as int,
        ),
{
    let ghost t = TokenParts { q: q@, k: k@, v: v@, alpha: alpha@, beta: beta@ };
    let key_dim: usize = d.total_key / d.num_k_heads;
    let value_dim: usize = d.total_value / d.num_v_heads;
    let mut state: Vec<F32> = Vec::new();
    let mut out: Vec<F32> = Vec::new();
    let ghost size = d.value_dim() * d.key_dim();
    proof {
        assert(0 * size == 0 && 0 * (value_dim as int) == 0);
        assert(size >= 0) by (nonlinear_arith)
            requires
                size == d.value_dim() * d.key_dim(),
                d.value_dim() == value_dim,
                d.key_dim() == key_dim,
        ;
        vstd::arithmetic::div_mod::lemma_div_non_zero(
            d.num_v_heads as int,
            d.num_k_heads as int,
        );
    }
    for vh in 0..d.num_v_heads
        invariant
            d.fit(),
            lin_tensors_fit(*ws, layer_idx as int, *d),
            key_dim == d.key_dim(),
            value_dim == d.value_dim(),
            size == value_dim * key_dim,
            size >= 0,
            d.num_v_heads as int / d.num_k_heads as int > 0,
            d.num_v_heads * size <= ssm@.len(),
            q@.len() == d.total_key,
            k@.len() == d.total_key,
            d.num_v_heads * value_dim <= v@.len(),
            alpha@.len() == d.num_v_heads,
            beta@.len() == d.num_v_heads,
            t == (TokenParts { q: q@, k: k@, v: v@, alpha: alpha@, beta: beta@ }),
            state@.len() == vh * size,
            out@.len() == vh * value_dim,
            deterministic::<A>() ==> state@ == ssm_after::<A>(
                *ws,
                layer_idx as int,
                ssm@,
                t,
                *d,
                vh as int,
            ),
            deterministic::<A>() ==> out@ == ssm_read::<A>(
                *ws,
                layer_idx as int,
                ssm@,
                t,
                *d,
                vh as int,
            ),
    {
        let kh: usize = vh / (d.num_v_heads / d.num_k_heads);
        proof {
            lemma_cell(vh as int, d.num_v_heads as int, size);
            lemma_cell(vh as int, d.num_v_heads as int, value_dim as int);
            assert(d.key_head(vh as int) == kh);
            assert(kh * key_dim >= 0) by (nonlinear_arith);
            assert(ssm.len() == ssm@.len() && q.len() == q@.len() && v.len() == v@.len());
            assert(size <= d.num_v_heads * size) by (nonlinear_arith)
                requires
                    d.num_v_heads > 0,
                    size >= 0,
            ;
        }
        let g_decay: F32 = decay::<A>(ws, layer_idx, alpha, vh, d);
        let beta_part: F32 = cpu_sigmoid::<A>(beta[vh]);
        let per_head: usize = value_dim * key_dim;
        let m: &[F32] = slice_subrange(ssm.as_slice(), vh * per_head, vh * per_head + per_head);
        let kp: &[F32] = slice_subrange(k.as_slice(), kh * key_dim, kh * key_dim + key_dim);
        let qp: &[F32] = slice_subrange(q.as_slice(), kh * key_dim, kh * key_dim + key_dim);
        let vp: &[F32] = slice_subrange(
            v.as_slice(),
            vh * value_dim,
            vh * value_dim + value_dim,
        );
        assert(m@ == head_matrix(ssm@, *d, vh as int));
        assert(kp@ == key_part(k@, *d, vh as int));
        assert(qp@ == key_part(q@, *d, vh as int));
        assert(vp@ == value_part(v@, *d, vh as int));
        let (mut new, mut read) = update_head::<A>(m, kp, qp, vp, g_decay, beta_part);
        state.append(&mut new);
        out.append(&mut read);
    }
    let used: usize = state.len();
    let ghost heads = state@;
    for i in used..ssm.len()
        invariant
            used == heads.len(),
            used <= i <= ssm@.len(),
            state@ == heads + ssm@.subrange(used as int, i as int),
    {
        state.push(ssm[i]);
        assert(state@ =~= heads + ssm@.subrange(used as int, i + 1));
    }
    assert(ssm@.subrange(used as int, ssm@.len() as int) =~= ssm@.skip(used as int));
    (state, out)
}

/// What the value heads read, after the gated norm, the first `n` heads one behind the other;
/// as it is where the norm has no weights.
pub open spec fn heads_gated<A: Arith>(
    w: Seq<u16>,
    out: Seq<F32>,
    z: Seq<F32>,
    d: LinDims,
    n: int,
) -> Seq<F32>
    decreases n,
{
    if n <= 0 {
        Seq::empty()
    } else {
        heads_gated::<A>(w, out, z, d, n - 1) + rms_norm_gated::<A>(
            value_part(out, d, n - 1),
            value_part(z, d, n - 1),
            w,
            rms_norm_eps(),
        )
    }
}

/// A vector with zeros behind it up to a length.
pub open spec fn padded(x: Seq<F32>, n: int) -> Seq<F32> {
    x + zero_seq(n - x.len())
}

/// The output of the value heads, as long as the output projection wants it.
pub open spec fn lin_output<A: Arith>(
    ws: Weights,
    layer: int,
    out: Seq<F32>,
    z: Seq<F32>,
    d: LinDims,
) -> Seq<F32> {
    padded(
        match u16s_of(ws, in_layer(layer, ".linear_attn.norm.weight"@)) {
            Some(w) => heads_gated::<A>(w, out, z, d, d.num_v_heads as int),
            None => out,
        },
        d.total_value as int,
    )
}

proof fn lemma_values_fit(d: LinDims)
    requires
        d.num_v_heads > 0,
    ensures
        0 <= d.num_v_heads * d.value_dim() <= d.total_value,
        0 <= d.value_dim() <= d.total_value,
{
    vstd::arithmetic::div_mod::lemma_fundamental_div_mod(
        d.total_value as int,
        d.num_v_heads as int,
    );
    vstd::arithmetic::div_mod::lemma_div_pos_is_pos(d.total_value as int, d.num_v_heads as int);
    let v = d.value_dim();
    let n = d.num_v_heads as int;
    assert(0 <= n * v && v <= n * v) by (nonlinear_arith)
        requires
            n >= 1,
            v >= 0,
    ;
}

proof fn lemma_keys_fit(d: LinDims)
    requires
        d.num_k_heads > 0,
    ensures
        0 <= d.num_k_heads * d.key_dim() <= d.total_key,
        0 <= d.key_dim() <= d.total_key,
{
    vstd::arithmetic::div_mod::lemma_fundamental_div_mod(d.total_key as int, d.num_k_heads as int);
    vstd::arithmetic::div_mod::lemma_div_pos_is_pos(d.total_key as int, d.num_k_heads as int);
    let v = d.key_dim();
    let n = d.num_k_heads as int;
    assert(0 <= n * v && v <= n * v) by (nonlinear_arith)
        requires
            n >= 1,
            v >= 0,
    ;
}

fn norm_output<A: Arith>(
    ws: &Weights,
    layer_idx: usize,
    out: Vec<F32>,
    z: &Vec<F32>,
    d: &LinDims,
) -> (r: Vec<F32>)
    requires
        d.fit(),
        lin_tensors_fit(*ws, layer_idx as int, *d),
        out@.len() == d.num_v_heads * d.value_dim(),
        z@.len() == d.total_value,
    ensures
        r@.len() == d.total_value,
        deterministic::<A>() ==> r@ == lin_output::<A>(*ws, layer_idx as int, out@, z@, *d),
{
    let value_dim: usize = d.total_value / d.num_v_heads;
    proof {
        lemma_values_fit(*d);
    }
    let name: String = layer_name(layer_idx, ".linear_attn.norm.weight");
    let mut res: Vec<F32> = match ws.get_tensor_u16(name.as_str()) {
        None => out,
        Some(w) => {
            let mut acc: Vec<F32> = Vec::new();
            assert(0 * (value_dim as int) == 0);
            for vh in 0..d.num_v_heads
                invariant
                    d.fit(),
                    value_dim == d.value_dim(),
                    value_dim <= w@.len(),
                    out@.len() == d.num_v_heads * value_dim,
                    out@.len() <= z@.len(),
                    z@.len() == d.total_value,
                    value_dim <= d.total_value,
                    acc@.len() == vh * value_dim,
                    deterministic::<A>() ==> acc@ == heads_gated::<A>(w@, out@, z@, *d, vh as int),
            {
                proof {
                    lemma_cell(vh as int, d.num_v_heads as int, value_dim as int);
                    assert(out.len() == out@.len() && z.len() == z@.len());
                }
                let start: usize = vh * value_dim;
                let oh: &[F32] = slice_subrange(out.as_slice(), start, start + value_dim);
                let zh: &[F32] = slice_subrange(z.as_slice(), start, start + value_dim);
                assert(oh@ == value_part(out@, *d, vh as int));
                assert(zh@ == value_part(z@, *d, vh as int));
                let mut part: Vec<F32> = cpu_rms_norm_gated::<A>(oh, zh, w, rms_norm_eps());
                acc.append(&mut part);
            }
            acc
        },
    };
    let rest: usize = d.total_value - res.len();
    let mut tail: Vec<F32> = zeros(rest);
    res.append(&mut tail);
    res
}

/// The convolution's output for a token: without weights, its input.
pub open spec fn conv_output<A: Arith>(
    ws: Weights,
    layer: int,
    conv_state: Seq<F32>,
    qkv: Seq<F32>,
) -> Seq<F32> {
    match u16s_of(ws, in_layer(layer, ".linear_attn.conv1d.weight"@)) {
        Some(w) => conv_step::<A>(conv_state, qkv, w, 4),
        None => qkv,
    }
}

/// `1 / sqrt(key_dim)`.
pub open spec fn key_scale<A: Arith>(d: LinDims) -> F32 {
    fdiv::<A>(one(), fsqrt::<A>(ffrom_int::<A>(d.key_dim() as i64)))
}

/// The vectors of a token that the recurrence runs on, from the convolution's output: queries and
/// keys over their root mean squares and scaled, values as they are.
pub open spec fn token_parts<A: Arith>(
    c: Seq<F32>,
    alpha: Seq<F32>,
    beta: Seq<F32>,
    d: LinDims,
    order: SumOrder,
) -> TokenParts {
    let tk = d.total_key as int;
    let s = key_scale::<A>(d);
    TokenParts {
        q: heads_scaled::<A>(
            c.subrange(0, tk),
            d.num_k_heads as int,
            d.key_dim(),
            fmul::<A>(s, s),
            order,
        ),
        k: heads_scaled::<A>(c.subrange(tk, 2 * tk), d.num_k_heads as int, d.key_dim(), s, order),
        v: c.skip(2 * tk),
        alpha,
        beta,
    }
}

/// The state holds what linear attention of these sizes wants.
pub open spec fn state_fits(s: LinearAttnState, d: LinDims) -> bool {
    &&& s.conv_state@.len() == 3 * d.qkv_dim
    &&& d.num_v_heads * (d.value_dim() * d.key_dim()) <= s.ssm_state@.len()
}

/// The convolution of a token: its output comes back, and the state takes the input in.
pub fn convolve_token<A: Arith>(
    ws: &Weights,
    layer_idx: usize,
    qkv: &Vec<F32>,
    state: &mut LinearAttnState,
    d: &LinDims,
) -> (r: Vec<F32>)
    requires
        d.qkv_dim * 4 <= usize::MAX,
        lin_tensors_fit(*ws, layer_idx as int, *d),
        old(state).conv_state@.len() == 3 * d.qkv_dim,
        qkv@.len() == d.qkv_dim,
    ensures
        r@.len() == d.qkv_dim,
        final(state).conv_state@ == shifted(old(state).conv_state@, qkv@),
        final(state).conv_state@.len() == old(state).conv_state@.len(),
        final(state).ssm_state == old(state).ssm_state,
        deterministic::<A>() ==> r@ == conv_output::<A>(
            *ws,
            layer_idx as int,
            old(state).conv_state@,
            qkv@,
        ),
{
    let name: String = layer_name(layer_idx, ".linear_attn.conv1d.weight");
    let conv_out: Vec<F32> = match ws.get_tensor_u16(name.as_str()) {
        Some(w) => cpu_conv1d_step::<A>(
            state.conv_state.as_slice(),
            qkv.as_slice(),
            w,
            4,
        ),
        None => {
            let mut same: Vec<F32> = Vec::new();
            for i in 0..qkv.len()
                invariant
                    same@ == qkv@.take(i as int),
            {
                same.push(qkv[i]);
                assert(qkv@.take(i + 1) =~= qkv@.take(i as int).push(qkv@[i as int]));
            }
            assert(qkv@.take(qkv@.len() as int) =~= qkv@);
            same
        },
    };
    state.conv_state = shift_in(&state.conv_state, qkv.as_slice());
    conv_out
}

/// Linear attention of a token, given its projections: the state takes the token in, and the
/// output of the value heads comes back.
pub fn linear_step<A: Arith>(
    ws: &Weights,
    layer_idx: usize,
    qkv: &Vec<F32>,
    z: &Vec<F32>,
    alpha: &Vec<F32>,
    beta: &Vec<F32>,
    state: &mut LinearAttnState,
    d: &LinDims,
    order: SumOrder,
) -> (r: Vec<F32>)
    requires
        d.fit(),
        lin_tensors_fit(*ws, layer_idx as int, *d),
        state_fits(*old(state), *d),
        qkv@.len() == d.qkv_dim,
        z@.len() == d.total_value,
        alpha@.len() == d.num_v_heads,
        beta@.len() == d.num_v_heads,
    ensures
        r@.len() == d.total_value,
        state_fits(*final(state), *d),
        final(state).ssm_state@.len() == old(state).ssm_state@.len(),
        final(state).conv_state@ == shifted(old(state).conv_state@, qkv@),
        deterministic::<A>() ==> {
            let t = token_parts::<A>(
                conv_output::<A>(*ws, layer_idx as int, old(state).conv_state@, qkv@),
                alpha@,
                beta@,
                *d,
                order,
            );
            let n = d.num_v_heads as int;
            &&& final(state).ssm_state@ == ssm_next::<A>(
                *ws,
                layer_idx as int,
                old(state).ssm_state@,
                t,
                *d,
            )
            &&& r@ == lin_output::<A>(
                *ws,
                layer_idx as int,
                ssm_read::<A>(*ws, layer_idx as int, old(state).ssm_state@, t, *d, n),
                z@,
                *d,
            )
        },
{
    proof {
        lemma_keys_fit(*d);
        lemma_values_fit(*d);
    }
    let key_dim: usize = d.total_key / d.num_k_heads;
    let inv_scale: F32 = A::div(one(), A::sqrt(A::from_int(key_dim as i64)));
    let conv_out: Vec<F32> = convolve_token::<A>(ws, layer_idx, qkv, state, d);
    let tk: usize = d.total_key;
    let c: &[F32] = conv_out.as_slice();
    let lin_q: &[F32] = slice_subrange(c, 0, tk);
    let lin_k: &[F32] = slice_subrange(c, tk, 2 * tk);
    let lin_v: &[F32] = slice_subrange(c, 2 * tk, d.qkv_dim);
    assert(lin_v@ =~= conv_out@.skip(2 * tk));
    let v: Vec<F32> = vstd::slice::slice_to_vec(lin_v);
    let q: Vec<F32> = scale_heads::<A>(
        lin_q,
        d.num_k_heads,
        key_dim,
        A::mul(inv_scale, inv_scale),
        order,
    );
    let k: Vec<F32> = scale_heads::<A>(lin_k, d.num_k_heads, key_dim, inv_scale, order);
    let (ssm, out) = recur::<A>(
        ws,
        layer_idx,
        &state.ssm_state,
        &q,
        &k,
        &v,
        alpha,
        beta,
        d,
    );
    state.ssm_state = ssm;
    norm_output::<A>(ws, layer_idx, out, z, d)
}

/// The projections of a layer's linear attention, where they are there, have the right sizes.
pub open spec fn lin_weights_fit(ws: Weights, layer: int, hidden: int, d: LinDims) -> bool {
    &&& named_fits(
        ws,
        in_layer(layer, ".linear_attn.in_proj_qkv"@),
        d.qkv_dim as int,
        hidden,
    )
    &&& named_fits(
        ws,
        in_layer(layer, ".linear_attn.in_proj_z"@),
        d.total_value as int,
        hidden,
    )
    &&& named_fits(
        ws,
        in_layer(layer, ".linear_attn.in_proj_b"@),
        d.num_v_heads as int,
        hidden,
    )
    &&& named_fits(
        ws,
        in_layer(layer, ".linear_attn.in_proj_a"@),
        d.num_v_heads as int,
        hidden,
    )
    &&& named_fits(
        ws,
        in_layer(layer, ".linear_attn.out_proj"@),
        hidden,
        d.total_value as int,
    )
}

/// A token's vectors for the recurrence, from the normed hidden vector and the state before it.
pub open spec fn parts_of<A: Arith>(
    ws: Weights,
    layer: int,
    normed: Seq<F32>,
    before: Recurrence,
    d: LinDims,
    order: SumOrder,
) -> TokenParts {
    token_parts::<A>(
        conv_output::<A>(
            ws,
            layer,
            before.conv,
            projected::<A>(
                ws,
                in_layer(layer, ".linear_attn.in_proj_qkv"@),
                normed,
                d.qkv_dim as int,
            ),
        ),
        projected::<A>(
            ws,
            in_layer(layer, ".linear_attn.in_proj_a"@),
            normed,
            d.num_v_heads as int,
        ),
        projected::<A>(
            ws,
            in_layer(layer, ".linear_attn.in_proj_b"@),
            normed,
            d.num_v_heads as int,
        ),
        d,
        order,
    )
}

/// What a layer's state holds after linear attention.
pub open spec fn next_state<A: Arith>(
    ws: Weights,
    layer: int,
    normed: Seq<F32>,
    before: Recurrence,
    d: LinDims,
    order: SumOrder,
) -> Recurrence {
    Recurrence {
        conv: shifted(
            before.conv,
            projected::<A>(
                ws,
                in_layer(layer, ".linear_attn.in_proj_qkv"@),
                normed,
                d.qkv_dim as int,
            ),
        ),
        ssm: ssm_next::<A>(
            ws,
            layer,
            before.ssm,
            parts_of::<A>(ws, layer, normed, before, d, order),
            d,
        ),
    }
}

/// The hidden vector after linear attention: what the output projection gives is added to the
/// residual.
pub open spec fn after_linear<A: Arith>(
    ws: Weights,
    layer: int,
    normed: Seq<F32>,
    residual: Seq<F32>,
    before: Recurrence,
    d: LinDims,
    order: SumOrder,
) -> Seq<F32> {
    added::<A>(
        residual,
        projected::<A>(
            ws,
            in_layer(layer, ".linear_attn.out_proj"@),
            lin_output::<A>(
                ws,
                layer,
                ssm_read::<A>(
                    ws,
                    layer,
                    before.ssm,
                    parts_of::<A>(ws, layer, normed, before, d, order),
                    d,
                    d.num_v_heads as int,
                ),
                projected::<A>(
                    ws,
                    in_layer(layer, ".linear_attn.in_proj_z"@),
                    normed,
                    d.total_value as int,
                ),
                d,
            ),
            residual.len() as int,
        ),
    )
}

/// Linear attention of a layer on a normed vector: the new hidden vector.
pub fn linear_attention<A: Arith>(
    ws: &Weights,
    layer_idx: usize,
    normed: &[F32],
    residual: &[F32],
    state: &mut LinearAttnState,
    d: &LinDims,
    order: SumOrder,
) -> (r: Vec<F32>)
    requires
        d.fit(),
        lin_tensors_fit(*ws, layer_idx as int, *d),
        lin_weights_fit(*ws, layer_idx as int, normed@.len() as int, *d),
        state_fits(*old(state), *d),
        normed@.len() == residual@.len(),
    ensures
        r@.len() == residual@.len(),
        state_fits(*final(state), *d),
        final(state).ssm_state@.len() == old(state).ssm_state@.len(),
        deterministic::<A>() ==> final(state)@ == next_state::<A>(
            *ws,
            layer_idx as int,
            normed@,
            old(state)@,
            *d,
            order,
        ),
        deterministic::<A>() ==> r@ == after_linear::<A>(
            *ws,
            layer_idx as int,
            normed@,
            residual@,
            old(state)@,
            *d,
            order,
        ),
{
    let qn: String = layer_name(layer_idx, ".linear_attn.in_proj_qkv");
    let qkv: Vec<F32> = project::<A>(ws, qn.as_str(), normed, d.qkv_dim);
    let zn: String = layer_name(layer_idx, ".linear_attn.in_proj_z");
    let z: Vec<F32> = project::<A>(ws, zn.as_str(), normed, d.total_value);
    let bn: String = layer_name(layer_idx, ".linear_attn.in_proj_b");
    let beta: Vec<F32> = project::<A>(ws, bn.as_str(), normed, d.num_v_heads);
    let an: String = layer_name(layer_idx, ".linear_attn.in_proj_a");
    let alpha: Vec<F32> = project::<A>(ws, an.as_str(), normed, d.num_v_heads);
    let out: Vec<F32> = linear_step::<A>(ws, layer_idx, &qkv, &z, &alpha, &beta, state, d, order);
    let on: String = layer_name(layer_idx, ".linear_attn.out_proj");
    let attn: Vec<F32> = project::<A>(ws, on.as_str(), out.as_slice(), residual.len());
    add_vec::<A>(residual, attn.as_slice())
}

/// Norm and linear attention of a layer.
pub fn linear_attention_forward<A: Arith>(
    ws: &Weights,
    layer_idx: usize,
    hidden: &mut Vec<F32>,
    state: &mut LinearAttnState,
    d: &LinDims,
)
    requires
        old(hidden)@.len() <= i64::MAX,
        d.fit(),
        lin_tensors_fit(*ws, layer_idx as int, *d),
        lin_weights_fit(*ws, layer_idx as int, old(hidden)@.len() as int, *d),
        state_fits(*old(state), *d),
        norm_fits(
            *ws,
            in_layer(layer_idx as int, ".input_layernorm.weight"@),
            old(hidden)@.len() as int,
        ),
    ensures
        final(hidden)@.len() == old(hidden)@.len(),
        state_fits(*final(state), *d),
        final(state).ssm_state@.len() == old(state).ssm_state@.len(),
        deterministic::<A>() ==> {
            let normed = normed_by::<A>(
                *ws,
                in_layer(layer_idx as int, ".input_layernorm.weight"@),
                old(hidden)@,
                SumOrder::LeftToRight,
            );
            &&& final(state)@ == next_state::<A>(
                *ws,
                layer_idx as int,
                normed,
                old(state)@,
                *d,
                SumOrder::LeftToRight,
            )
            &&& final(hidden)@ == after_linear::<A>(
                *ws,
                layer_idx as int,
                normed,
                old(hidden)@,
                old(state)@,
                *d,
                SumOrder::LeftToRight,
            )
        },
{
    let name: String = layer_name(layer_idx, ".input_layernorm.weight");
    let normed: Vec<F32> = norm_by::<A>(
        ws,
        name.as_str(),
        hidden.as_slice(),
        SumOrder::LeftToRight,
    );
    let out: Vec<F32> = linear_attention::<A>(
        ws,
        layer_idx,
        normed.as_slice(),
        hidden.as_slice(),
        state,
        d,
        SumOrder::LeftToRight,
    );
    *hidden = out;
}

/// The recurrence runs on the device: it is there, and the heads have the size that its kernels
/// are made for.
pub fn recurrence_on_device(key_dim: usize, value_dim: usize, has_device: bool) -> (r: bool)
    ensures
        r == (key_dim == 128 && value_dim == 128 && has_device),
{
    key_dim == 128 && value_dim == 128 && has_device
}

/// The convolution remembers the last three inputs, the oldest first: what was second becomes
/// first, what was third becomes second, and the new input is third.
pub proof fn law_convolution_window(state: Seq<F32>, x: Seq<F32>)
    requires
        state.len() == 3 * x.len(),
    ensures
        shifted(state, x).len() == state.len(),
        shifted(state, x).subrange(0, 2 * x.len() as int) == state.skip(x.len() as int),
        shifted(state, x).skip(2 * x.len() as int) == x,
{
    let n = x.len() as int;
    assert(shifted(state, x).subrange(0, 2 * n) =~= state.skip(n));
    assert(shifted(state, x).skip(2 * n) =~= x);
}

/// A fresh state fits the sizes it was made for.
pub proof fn law_fresh_state_fits(s: LinearAttnState, d: LinDims)
    requires
        fresh_state(
            s,
            d.num_v_heads as int,
            d.key_dim(),
            d.value_dim(),
            d.qkv_dim as int,
        ),
        d.num_k_heads > 0,
        d.num_v_heads > 0,
    ensures
        state_fits(s, d),
        s.ssm_state@.len() == d.num_v_heads * (d.value_dim() * d.key_dim()),
{
    lemma_values_fit(d);
    lemma_keys_fit(d);
    let (n, v, k) = (d.num_v_heads as int, d.value_dim(), d.key_dim());
    assert(n * v * k == n * (v * k) && 0 <= n * v * k) by (nonlinear_arith)
        requires
            n >= 0,
            v >= 0,
            k >= 0,
    ;
}

} // verus!
