//! What linear attention does, number by number.

use crate::bf16::of_bf16;
use crate::cache::Recurrence;
use crate::constants::rms_norm_eps;
use crate::float::{
    Arith, F32, fadd, fdiv, fexp, ffrom_int, fln, fmul, fneg, fsqrt, fsub, one, zero,
};
use crate::grid::{lemma_cell, lemma_flat};
use crate::linear::{
    LinDims, TokenParts, after_linear, conv_step, conv_sum, decay_of, dot_of, head_matrix,
    heads_gated, key_part, lin_output, next_state, row_after, rows_after, rows_read, ssm_after,
    ssm_next, ssm_read, token_parts, value_part,
};
use crate::math::{SumOrder, fsigmoid, left_sum, rms_norm_gated, scaled, squares, sum_of};
use crate::weights::{Weights, f32s_of, in_layer, projected, u16s_of};
use vstd::prelude::*;

verus! {

proof fn lemma_dot<A: Arith>(a: Seq<F32>, b: Seq<F32>, p: Seq<F32>, n: int)
    requires
        0 <= n <= p.len(),
        forall|c: int| 0 <= c < n ==> #[trigger] p[c] == fmul::<A>(a[c], b[c]),
    ensures
        dot_of::<A>(a, b, n) == left_sum::<A>(p, n),
    decreases n,
{
    if n > 0 {
        lemma_dot::<A>(a, b, p, n - 1);
    }
}

proof fn lemma_rows_len<A: Arith>(
    m: Seq<F32>,
    k: Seq<F32>,
    v: Seq<F32>,
    decay: F32,
    beta: F32,
    n: int,
)
    requires
        0 <= n,
        n * k.len() <= m.len(),
    ensures
        rows_after::<A>(m, k, v, decay, beta, n).len() == n * k.len(),
    decreases n,
{
    if n > 0 {
        lemma_cell(n - 1, n, k.len() as int);
        lemma_rows_len::<A>(m, k, v, decay, beta, n - 1);
    }
}

proof fn lemma_rows_at<A: Arith>(
    m: Seq<F32>,
    k: Seq<F32>,
    v: Seq<F32>,
    decay: F32,
    beta: F32,
    n: int,
    i: int,
    c: int,
)
    requires
        0 <= i < n,
        0 <= c < k.len(),
        n * k.len() <= m.len(),
    ensures
        rows_after::<A>(m, k, v, decay, beta, n)[i * k.len() + c] == row_after::<A>(
            m.subrange(i * k.len(), i * k.len() + k.len()),
            k,
            v[i],
            decay,
            beta,
        )[c],
    decreases n,
{
    let kd = k.len() as int;
    lemma_cell(n - 1, n, kd);
    lemma_cell(i, n, kd);
    lemma_rows_len::<A>(m, k, v, decay, beta, n - 1);
    if i < n - 1 {
        lemma_cell(i, n - 1, kd);
        lemma_rows_at::<A>(m, k, v, decay, beta, n - 1, i, c);
    }
}

proof fn lemma_sizes(d: LinDims)
    requires
        d.num_k_heads > 0,
        d.num_v_heads > 0,
    ensures
        0 <= d.key_dim(),
        0 <= d.value_dim(),
        0 <= d.value_dim() * d.key_dim(),
{
    vstd::arithmetic::div_mod::lemma_div_pos_is_pos(d.total_key as int, d.num_k_heads as int);
    vstd::arithmetic::div_mod::lemma_div_pos_is_pos(d.total_value as int, d.num_v_heads as int);
    let (v, k) = (d.value_dim(), d.key_dim());
    assert(0 <= v * k) by (nonlinear_arith)
        requires
            0 <= v,
            0 <= k,
    ;
}

/// What the recurrence needs of the sizes of a token's parts and of the state.
pub open spec fn parts_ready(ssm: Seq<F32>, t: TokenParts, d: LinDims) -> bool {
    &&& d.fit()
    &&& d.num_v_heads * (d.value_dim() * d.key_dim()) <= ssm.len()
    &&& t.q.len() == d.total_key
    &&& t.k.len() == d.total_key
    &&& d.num_v_heads * d.value_dim() <= t.v.len()
}

pub proof fn lemma_head_sizes(ssm: Seq<F32>, t: TokenParts, d: LinDims, vh: int)
    requires
        parts_ready(ssm, t, d),
        0 <= vh < d.num_v_heads,
    ensures
        0 <= d.key_dim(),
        0 <= d.value_dim(),
        head_matrix(ssm, d, vh).len() == d.value_dim() * d.key_dim(),
        key_part(t.k, d, vh).len() == d.key_dim(),
        key_part(t.q, d, vh).len() == d.key_dim(),
        value_part(t.v, d, vh).len() == d.value_dim(),
        0 <= d.key_head(vh) * d.key_dim(),
{
    lemma_sizes(d);
    let size = d.value_dim() * d.key_dim();
    lemma_cell(vh, d.num_v_heads as int, size);
    lemma_cell(vh, d.num_v_heads as int, d.value_dim());
    vstd::arithmetic::div_mod::lemma_div_non_zero(d.num_v_heads as int, d.num_k_heads as int);
    vstd::arithmetic::div_mod::lemma_div_pos_is_pos(
        vh,
        d.num_v_heads as int / d.num_k_heads as int,
    );
    let (kh, kd) = (d.key_head(vh), d.key_dim());
    assert(0 <= kh * kd) by (nonlinear_arith)
        requires
            0 <= kh,
            0 <= kd,
    ;
    assert(kh * kd + kd <= d.total_key);
}

pub proof fn lemma_ssm_len<A: Arith>(
    ws: Weights,
    layer: int,
    ssm: Seq<F32>,
    t: TokenParts,
    d: LinDims,
    n: int,
)
    requires
        parts_ready(ssm, t, d),
        0 <= n <= d.num_v_heads,
    ensures
        ssm_after::<A>(ws, layer, ssm, t, d, n).len() == n * (d.value_dim() * d.key_dim()),
        ssm_read::<A>(ws, layer, ssm, t, d, n).len() == n * d.value_dim(),
    decreases n,
{
    if n > 0 {
        lemma_ssm_len::<A>(ws, layer, ssm, t, d, n - 1);
        lemma_head_sizes(ssm, t, d, n - 1);
        lemma_cell(n - 1, n, d.value_dim() * d.key_dim());
        lemma_cell(n - 1, n, d.value_dim());
        lemma_rows_len::<A>(
            head_matrix(ssm, d, n - 1),
            key_part(t.k, d, n - 1),
            value_part(t.v, d, n - 1),
            decay_of::<A>(ws, layer, t.alpha, n - 1),
            fsigmoid::<A>(t.beta[n - 1]),
            d.value_dim(),
        );
    }
}

proof fn lemma_ssm_at<A: Arith>(
    ws: Weights,
    layer: int,
    ssm: Seq<F32>,
    t: TokenParts,
    d: LinDims,
    n: int,
    vh: int,
    j: int,
)
    requires
        parts_ready(ssm, t, d),
        0 <= vh < n <= d.num_v_heads,
        0 <= j < d.value_dim() * d.key_dim(),
    ensures
        ssm_after::<A>(ws, layer, ssm, t, d, n)[vh * (d.value_dim() * d.key_dim()) + j]
            == rows_after::<A>(
            head_matrix(ssm, d, vh),
            key_part(t.k, d, vh),
            value_part(t.v, d, vh),
            decay_of::<A>(ws, layer, t.alpha, vh),
            fsigmoid::<A>(t.beta[vh]),
            d.value_dim(),
        )[j],
    decreases n,
{
    let size = d.value_dim() * d.key_dim();
    lemma_ssm_len::<A>(ws, layer, ssm, t, d, n - 1);
    lemma_cell(n - 1, n, size);
    lemma_head_sizes(ssm, t, d, vh);
    lemma_rows_len::<A>(
        head_matrix(ssm, d, vh),
        key_part(t.k, d, vh),
        value_part(t.v, d, vh),
        decay_of::<A>(ws, layer, t.alpha, vh),
        fsigmoid::<A>(t.beta[vh]),
        d.value_dim(),
    );
    if vh < n - 1 {
        lemma_cell(vh, n - 1, size);
        lemma_ssm_at::<A>(ws, layer, ssm, t, d, n - 1, vh, j);
    }
}

proof fn lemma_read_at<A: Arith>(
    ws: Weights,
    layer: int,
    ssm: Seq<F32>,
    t: TokenParts,
    d: LinDims,
    n: int,
    vh: int,
    i: int,
)
    requires
        parts_ready(ssm, t, d),
        0 <= vh < n <= d.num_v_heads,
        0 <= i < d.value_dim(),
    ensures
        ssm_read::<A>(ws, layer, ssm, t, d, n)[vh * d.value_dim() + i] == rows_read::<A>(
            head_matrix(ssm, d, vh),
            key_part(t.k, d, vh),
            key_part(t.q, d, vh),
            value_part(t.v, d, vh),
            decay_of::<A>(ws, layer, t.alpha, vh),
            fsigmoid::<A>(t.beta[vh]),
            d.value_dim(),
        )[i],
    decreases n,
{
    let vd = d.value_dim();
    lemma_ssm_len::<A>(ws, layer, ssm, t, d, n - 1);
    lemma_cell(n - 1, n, vd);
    lemma_head_sizes(ssm, t, d, vh);
    if vh < n - 1 {
        lemma_cell(vh, n - 1, vd);
        lemma_read_at::<A>(ws, layer, ssm, t, d, n - 1, vh, i);
    }
}

/// The gated delta rule, number by number. Value head `vh` belongs to key head
/// `vh / (v_heads / k_heads)`. Row `i` of its matrix fades, is asked what it recalls for the key,
/// and moves along the key by the part of the error that the head learns; what the head reads is
/// the new row times the query. Decay and learning rate are the head's own. What lies behind the
/// matrices stays.
pub proof fn law_delta_rule<A: Arith>(
    ws: Weights,
    layer: int,
    ssm: Seq<F32>,
    t: TokenParts,
    d: LinDims,
    vh: int,
    i: int,
)
    requires
        parts_ready(ssm, t, d),
        0 <= vh < d.num_v_heads,
        0 <= i < d.total_value as int / d.num_v_heads as int,
    ensures
        ({
            let kd = d.total_key as int / d.num_k_heads as int;
            let vd = d.total_value as int / d.num_v_heads as int;
            let key = vh / (d.num_v_heads as int / d.num_k_heads as int) * kd;
            let row = vh * (vd * kd) + i * kd;
            let a = match f32s_of(ws, in_layer(layer, ".linear_attn.A_log"@)) {
                Some(s) => s[vh],
                None => one(),
            };
            let dt = match u16s_of(ws, in_layer(layer, ".linear_attn.dt_bias"@)) {
                Some(s) => of_bf16(s[vh]),
                None => zero(),
            };
            let keep = fexp::<A>(
                fmul::<A>(
                    fneg(fexp::<A>(a)),
                    fln::<A>(fadd::<A>(one(), fexp::<A>(fadd::<A>(t.alpha[vh], dt)))),
                ),
            );
            let learn = fdiv::<A>(one(), fadd::<A>(one(), fexp::<A>(fneg(t.beta[vh]))));
            let recalled = sum_of::<A>(
                Seq::new(
                    kd as nat,
                    |c: int| fmul::<A>(fmul::<A>(ssm[row + c], keep), t.k[key + c]),
                ),
                SumOrder::LeftToRight,
            );
            let step = fmul::<A>(fsub::<A>(t.v[vh * vd + i], recalled), learn);
            let after = ssm_next::<A>(ws, layer, ssm, t, d);
            let read = ssm_read::<A>(ws, layer, ssm, t, d, d.num_v_heads as int);
            &&& after.len() == ssm.len()
            &&& read.len() == d.num_v_heads * vd
            &&& forall|c: int|
                0 <= c < kd ==> #[trigger] after[row + c] == fadd::<A>(
                    fmul::<A>(ssm[row + c], keep),
                    fmul::<A>(t.k[key + c], step),
                )
            &&& read[vh * vd + i] == sum_of::<A>(
                Seq::new(kd as nat, |c: int| fmul::<A>(after[row + c], t.q[key + c])),
                SumOrder::LeftToRight,
            )
            &&& forall|j: int|
                d.num_v_heads * (vd * kd) <= j < ssm.len() ==> #[trigger] after[j] == ssm[j]
        }),
{
    let (kd, vd, nv) = (d.key_dim(), d.value_dim(), d.num_v_heads as int);
    let size = vd * kd;
    lemma_head_sizes(ssm, t, d, vh);
    lemma_ssm_len::<A>(ws, layer, ssm, t, d, nv);
    lemma_cell(vh, nv, size);
    lemma_cell(vh, nv, vd);
    lemma_cell(i, vd, kd);
    let key = d.key_head(vh) * kd;
    let row = vh * size + i * kd;
    let keep = decay_of::<A>(ws, layer, t.alpha, vh);
    let learn = fsigmoid::<A>(t.beta[vh]);
    let (m, k, q, v) = (
        head_matrix(ssm, d, vh),
        key_part(t.k, d, vh),
        key_part(t.q, d, vh),
        value_part(t.v, d, vh),
    );
    let old_row = m.subrange(i * kd, i * kd + kd);
    let faded = scaled::<A>(old_row, keep);
    let p = Seq::new(
        kd as nat,
        |c: int| fmul::<A>(fmul::<A>(ssm[row + c], keep), t.k[key + c]),
    );
    lemma_dot::<A>(faded, k, p, kd);
    let new_row = row_after::<A>(old_row, k, v[i], keep, learn);
    let after = ssm_next::<A>(ws, layer, ssm, t, d);
    let step = fmul::<A>(fsub::<A>(t.v[vh * vd + i], left_sum::<A>(p, kd)), learn);
    assert(v[i] == t.v[vh * vd + i]);
    assert forall|c: int| 0 <= c < kd implies #[trigger] after[row + c] == new_row[c] && after[row
        + c] == fadd::<A>(fmul::<A>(ssm[row + c], keep), fmul::<A>(t.k[key + c], step)) by {
        lemma_ssm_at::<A>(ws, layer, ssm, t, d, nv, vh, i * kd + c);
        lemma_rows_at::<A>(m, k, v, keep, learn, vd, i, c);
        assert(faded[c] == fmul::<A>(ssm[row + c], keep));
        assert(k[c] == t.k[key + c]);
    }
    let r = Seq::new(kd as nat, |c: int| fmul::<A>(after[row + c], t.q[key + c]));
    assert forall|c: int| 0 <= c < kd implies #[trigger] r[c] == fmul::<A>(new_row[c], q[c]) by {
        assert(after[row + c] == new_row[c]);
    }
    lemma_dot::<A>(new_row, q, r, kd);
    lemma_read_at::<A>(ws, layer, ssm, t, d, nv, vh, i);
    assert(r =~= Seq::new(kd as nat, |c: int| fmul::<A>(new_row[c], q[c])));
}

/// Where the key heads divide the value heads, key head `j` serves exactly the value heads from
/// `j * (v_heads / k_heads)` up to the first of the next key head; so each key head serves equally
/// many, and none is left out.
pub proof fn law_key_heads(d: LinDims, vh: int, j: int)
    requires
        0 < d.num_k_heads,
        d.num_v_heads as int % d.num_k_heads as int == 0,
        0 <= vh < d.num_v_heads,
        0 <= j < d.num_k_heads,
    ensures
        d.key_head(vh) == j <==> j * (d.num_v_heads as int / d.num_k_heads as int) <= vh < (j + 1)
            * (d.num_v_heads as int / d.num_k_heads as int),
        0 <= d.key_head(vh) < d.num_k_heads,
{
    let (v, k) = (d.num_v_heads as int, d.num_k_heads as int);
    let per = v / k;
    vstd::arithmetic::div_mod::lemma_fundamental_div_mod(v, k);
    assert(per > 0) by (nonlinear_arith)
        requires
            v == k * per,
            v > 0,
            k > 0,
    ;
    vstd::arithmetic::div_mod::lemma_fundamental_div_mod(vh, per);
    let (q, r) = (vh / per, vh % per);
    assert(q == j <==> j * per <= vh < (j + 1) * per) by (nonlinear_arith)
        requires
            vh == per * q + r,
            0 <= r < per,
            per > 0,
    ;
    assert(0 <= q < k) by (nonlinear_arith)
        requires
            vh == per * q + r,
            0 <= r < per,
            0 <= vh < k * per,
            per > 0,
            k > 0,
    ;
}

proof fn lemma_conv_sum<A: Arith>(
    state: Seq<F32>,
    w: Seq<u16>,
    channels: int,
    kernel: int,
    c: int,
    p: Seq<F32>,
    n: int,
)
    requires
        0 <= n <= p.len(),
        forall|j: int|
            0 <= j < n ==> #[trigger] p[j] == fmul::<A>(
                state[j * channels + c],
                of_bf16(w[c * kernel + j]),
            ),
    ensures
        conv_sum::<A>(state, w, channels, kernel, c, n) == left_sum::<A>(p, n),
    decreases n,
{
    if n > 0 {
        lemma_conv_sum::<A>(state, w, channels, kernel, c, p, n - 1);
    }
}

/// The convolution, channel by channel: the last inputs of a channel, the oldest first, and its new
/// one, each times its weight, summed and put through the activation function. No channel looks at
/// another.
pub proof fn law_convolution<A: Arith>(
    state: Seq<F32>,
    x: Seq<F32>,
    w: Seq<u16>,
    kernel: int,
    c: int,
)
    requires
        0 < kernel,
        0 <= c < x.len(),
        (kernel - 1) * x.len() <= state.len(),
        x.len() * kernel <= w.len(),
    ensures
        ({
            let s = sum_of::<A>(
                Seq::new(
                    kernel as nat,
                    |j: int|
                        fmul::<A>(
                            if j + 1 < kernel {
                                state[j * x.len() + c]
                            } else {
                                x[c]
                            },
                            of_bf16(w[c * kernel + j]),
                        ),
                ),
                SumOrder::LeftToRight,
            );
            &&& conv_step::<A>(state, x, w, kernel).len() == x.len()
            &&& conv_step::<A>(state, x, w, kernel)[c] == fdiv::<A>(
                s,
                fadd::<A>(one(), fexp::<A>(fneg(s))),
            )
        }),
{
    let p = Seq::new(
        kernel as nat,
        |j: int|
            fmul::<A>(
                if j + 1 < kernel {
                    state[j * x.len() + c]
                } else {
                    x[c]
                },
                of_bf16(w[c * kernel + j]),
            ),
    );
    lemma_conv_sum::<A>(state, w, x.len() as int, kernel, c, p, kernel - 1);
}

/// The parts of a token, number by number: queries, keys and values lie behind each other in the
/// convolution's output. Each head of queries and of keys is divided by its own root mean square;
/// keys are scaled by `1 / sqrt(key_dim)`, queries by the square of it; values stay.
pub proof fn law_token_parts<A: Arith>(
    x: Seq<F32>,
    alpha: Seq<F32>,
    beta: Seq<F32>,
    d: LinDims,
    order: SumOrder,
    h: int,
    c: int,
    j: int,
)
    requires
        0 < d.num_k_heads,
        2 * d.total_key <= x.len(),
        0 <= h < d.num_k_heads,
        0 <= c < d.total_key as int / d.num_k_heads as int,
        0 <= j < x.len() - 2 * d.total_key,
    ensures
        ({
            let kd = d.total_key as int / d.num_k_heads as int;
            let scale = fdiv::<A>(one(), fsqrt::<A>(ffrom_int::<A>(kd as i64)));
            let inv = |at: int|
                fdiv::<A>(
                    one(),
                    fsqrt::<A>(
                        fadd::<A>(
                            fdiv::<A>(
                                sum_of::<A>(
                                    Seq::new(
                                        kd as nat,
                                        |e: int| fmul::<A>(x[at + e], x[at + e]),
                                    ),
                                    order,
                                ),
                                ffrom_int::<A>(kd as i64),
                            ),
                            rms_norm_eps(),
                        ),
                    ),
                );
            let t = token_parts::<A>(x, alpha, beta, d, order);
            let (q, k) = (h * kd, d.total_key + h * kd);
            &&& t.q.len() == d.total_key
            &&& t.k.len() == d.total_key
            &&& t.v.len() == x.len() - 2 * d.total_key
            &&& t.q[h * kd + c] == fmul::<A>(
                fmul::<A>(x[q + c], inv(q)),
                fmul::<A>(scale, scale),
            )
            &&& t.k[h * kd + c] == fmul::<A>(fmul::<A>(x[k + c], inv(k)), scale)
            &&& t.v[j] == x[2 * d.total_key + j]
            &&& t.alpha == alpha
            &&& t.beta == beta
        }),
{
    let (tk, nk) = (d.total_key as int, d.num_k_heads as int);
    let kd = d.key_dim();
    vstd::arithmetic::div_mod::lemma_fundamental_div_mod(tk, nk);
    assert(nk * kd <= tk);
    lemma_cell(h, nk, kd);
    lemma_flat(h, c, kd);
    let i = h * kd + c;
    assert(i / kd * kd == h * kd);
    let a = x.subrange(0, tk).subrange(h * kd, h * kd + kd);
    let b = x.subrange(tk, 2 * tk).subrange(h * kd, h * kd + kd);
    assert(squares::<A>(a) =~= Seq::new(
        kd as nat,
        |e: int| fmul::<A>(x[h * kd + e], x[h * kd + e]),
    ));
    assert(squares::<A>(b) =~= Seq::new(
        kd as nat,
        |e: int| fmul::<A>(x[tk + h * kd + e], x[tk + h * kd + e]),
    ));
}

pub proof fn lemma_gated_len<A: Arith>(w: Seq<u16>, out: Seq<F32>, z: Seq<F32>, d: LinDims, n: int)
    requires
        0 <= n <= d.num_v_heads,
        0 <= d.value_dim(),
        out.len() == d.num_v_heads * d.value_dim(),
    ensures
        heads_gated::<A>(w, out, z, d, n).len() == n * d.value_dim(),
    decreases n,
{
    if n > 0 {
        lemma_gated_len::<A>(w, out, z, d, n - 1);
        lemma_cell(n - 1, n, d.value_dim());
        lemma_cell(n - 1, d.num_v_heads as int, d.value_dim());
    }
}

proof fn lemma_gated_at<A: Arith>(
    w: Seq<u16>,
    out: Seq<F32>,
    z: Seq<F32>,
    d: LinDims,
    n: int,
    vh: int,
    i: int,
)
    requires
        0 <= vh < n <= d.num_v_heads,
        0 <= i < d.value_dim(),
        out.len() == d.num_v_heads * d.value_dim(),
        out.len() <= z.len(),
    ensures
        heads_gated::<A>(w, out, z, d, n)[vh * d.value_dim() + i] == rms_norm_gated::<A>(
            value_part(out, d, vh),
            value_part(z, d, vh),
            w,
            rms_norm_eps(),
        )[i],
    decreases n,
{
    let vd = d.value_dim();
    lemma_gated_len::<A>(w, out, z, d, n - 1);
    lemma_cell(n - 1, n, vd);
    lemma_cell(n - 1, d.num_v_heads as int, vd);
    if vh < n - 1 {
        lemma_cell(vh, n - 1, vd);
        lemma_gated_at::<A>(w, out, z, d, n - 1, vh, i);
    }
}

/// The output of the value heads, number by number: what a head reads is divided by its own root
/// mean square, weighted, and scaled by the activation of its gates. Without weights it stays as it
/// is. Behind the last head there are zeros.
pub proof fn law_head_output<A: Arith>(
    ws: Weights,
    layer: int,
    out: Seq<F32>,
    z: Seq<F32>,
    d: LinDims,
    vh: int,
    i: int,
)
    requires
        0 <= vh < d.num_v_heads,
        0 <= i < d.total_value as int / d.num_v_heads as int,
        out.len() == d.num_v_heads * (d.total_value as int / d.num_v_heads as int),
        z.len() == d.total_value,
    ensures
        ({
            let vd = d.total_value as int / d.num_v_heads as int;
            let at = vh * vd + i;
            let inv = fdiv::<A>(
                one(),
                fsqrt::<A>(
                    fadd::<A>(
                        fdiv::<A>(
                            sum_of::<A>(
                                Seq::new(
                                    vd as nat,
                                    |e: int| fmul::<A>(out[vh * vd + e], out[vh * vd + e]),
                                ),
                                SumOrder::LeftToRight,
                            ),
                            ffrom_int::<A>(vd as i64),
                        ),
                        rms_norm_eps(),
                    ),
                ),
            );
            let gate = fdiv::<A>(z[at], fadd::<A>(one(), fexp::<A>(fneg(z[at]))));
            let r = lin_output::<A>(ws, layer, out, z, d);
            &&& r.len() == d.total_value
            &&& r[at] == match u16s_of(ws, in_layer(layer, ".linear_attn.norm.weight"@)) {
                Some(w) => fmul::<A>(fmul::<A>(fmul::<A>(out[at], inv), of_bf16(w[i])), gate),
                None => out[at],
            }
            &&& forall|j: int| out.len() <= j < d.total_value ==> #[trigger] r[j] == zero()
        }),
{
    let (vd, nv) = (d.value_dim(), d.num_v_heads as int);
    vstd::arithmetic::div_mod::lemma_fundamental_div_mod(d.total_value as int, nv);
    assert(nv * vd <= d.total_value);
    lemma_cell(vh, nv, vd);
    match u16s_of(ws, in_layer(layer, ".linear_attn.norm.weight"@)) {
        Some(w) => {
            lemma_gated_len::<A>(w, out, z, d, nv);
            lemma_gated_at::<A>(w, out, z, d, nv, vh, i);
            assert(squares::<A>(value_part(out, d, vh)) =~= Seq::new(
                vd as nat,
                |e: int| fmul::<A>(out[vh * vd + e], out[vh * vd + e]),
            ));
        },
        None => {},
    }
}

/// Linear attention of a layer, put together: one projection gives queries, keys and values for the
/// convolution, which remembers its last three inputs; two others give decay and learning rates;
/// the heads' output, gated by a fourth, goes through the output projection and is added to the
/// residual. Nothing else of the layer's weights or of the state is looked at.
pub proof fn law_linear_attention<A: Arith>(
    ws: Weights,
    layer: int,
    normed: Seq<F32>,
    residual: Seq<F32>,
    before: Recurrence,
    d: LinDims,
    order: SumOrder,
    i: int,
)
    requires
        0 <= i < residual.len(),
    ensures
        ({
            let of = |rest: Seq<char>, x: Seq<F32>, rows: int|
                projected::<A>(ws, in_layer(layer, rest), x, rows);
            let qkv = of(".linear_attn.in_proj_qkv"@, normed, d.qkv_dim as int);
            let z = of(".linear_attn.in_proj_z"@, normed, d.total_value as int);
            let b = of(".linear_attn.in_proj_b"@, normed, d.num_v_heads as int);
            let a = of(".linear_attn.in_proj_a"@, normed, d.num_v_heads as int);
            let mixed = match u16s_of(ws, in_layer(layer, ".linear_attn.conv1d.weight"@)) {
                Some(w) => conv_step::<A>(before.conv, qkv, w, 4),
                None => qkv,
            };
            let t = token_parts::<A>(mixed, a, b, d, order);
            let read = ssm_read::<A>(ws, layer, before.ssm, t, d, d.num_v_heads as int);
            let y = lin_output::<A>(ws, layer, read, z, d);
            let after = next_state::<A>(ws, layer, normed, before, d, order);
            &&& after_linear::<A>(ws, layer, normed, residual, before, d, order)[i] == fadd::<A>(
                residual[i],
                of(".linear_attn.out_proj"@, y, residual.len() as int)[i],
            )
            &&& after.conv == before.conv.skip(d.qkv_dim as int) + qkv
            &&& after.ssm == ssm_next::<A>(ws, layer, before.ssm, t, d)
        }),
{
}

} // verus!
