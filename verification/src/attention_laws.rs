//! What full attention does, number by number.

use crate::attention::{
    AttnDims, AttnStyle, after_attention, attended, head_normed, head_out, head_part, heads_normed,
    heads_normed_by, heads_out, keys, kv_head, next_tokens, products, queries, query_part,
    remembered, scores_of, weighted,
};
use crate::bf16::of_bf16;
use crate::cache::Tokens;
use crate::constants::rms_norm_eps;
use crate::float::{Arith, F32, fadd, fdiv, fexp, ffrom_int, fmul, fneg, frotary, fsqrt, fsub, one};
use crate::grid::{lemma_cell, lemma_flat};
use crate::math::{SumOrder, left_sum, softmax, squares, sum_of};
use crate::rope::roped;
use crate::weights::{Weights, in_layer, projected, u16s_of};
use vstd::prelude::*;

verus! {

proof fn lemma_weighted<A: Arith>(
    w: Seq<F32>,
    v: Seq<F32>,
    kv_dim: int,
    off: int,
    i: int,
    p: Seq<F32>,
    n: int,
)
    requires
        0 <= n <= p.len(),
        forall|t: int| 0 <= t < n ==> #[trigger] p[t] == fmul::<A>(w[t], v[t * kv_dim + off + i]),
    ensures
        weighted::<A>(w, v, kv_dim, off, i, n) == left_sum::<A>(p, n),
    decreases n,
{
    if n > 0 {
        lemma_weighted::<A>(w, v, kv_dim, off, i, p, n - 1);
    }
}

proof fn lemma_heads_len<A: Arith>(
    q: Seq<F32>,
    k: Seq<F32>,
    v: Seq<F32>,
    d: AttnDims,
    n: int,
    h: int,
    style: AttnStyle,
)
    requires
        0 <= h,
    ensures
        heads_out::<A>(q, k, v, d, n, h, style).len() == h * d.head_dim,
    decreases h,
{
    if h > 0 {
        lemma_heads_len::<A>(q, k, v, d, n, h - 1, style);
        lemma_cell(h - 1, h, d.head_dim as int);
    }
}

proof fn lemma_heads_at<A: Arith>(
    q: Seq<F32>,
    k: Seq<F32>,
    v: Seq<F32>,
    d: AttnDims,
    n: int,
    heads: int,
    style: AttnStyle,
    h: int,
    i: int,
)
    requires
        0 <= h < heads,
        0 <= i < d.head_dim,
    ensures
        heads_out::<A>(q, k, v, d, n, heads, style)[h * d.head_dim + i] == head_out::<A>(
            q,
            k,
            v,
            d,
            n,
            h,
            style,
        )[i],
    decreases heads,
{
    let hd = d.head_dim as int;
    lemma_heads_len::<A>(q, k, v, d, n, heads - 1, style);
    lemma_cell(heads - 1, heads, hd);
    if h < heads - 1 {
        lemma_cell(h, heads - 1, hd);
        lemma_heads_at::<A>(q, k, v, d, n, heads - 1, style, h, i);
    }
}

/// How many products a score sums: those of a head, or, as the server does it, as many as queries
/// and keys go on.
pub open spec fn score_width(
    q: Seq<F32>,
    k: Seq<F32>,
    from: int,
    at: int,
    hd: int,
    style: AttnStyle,
) -> int {
    match style {
        AttnStyle::Reference => hd,
        AttnStyle::Server => if q.len() - from <= k.len() - at {
            q.len() - from
        } else {
            k.len() - at
        },
    }
}

/// Attention, number by number. Query head `h` looks at key and value head
/// `h / (heads / kv_heads)` of every token, and at no other. A token's score is the sum of the
/// products of queries and keys over the square root of the head's size; the tokens' weights are
/// the exponentials of their scores over their sum; and number `i` of the head's output is the sum
/// of the tokens' numbers `i`, each times its token's weight.
pub proof fn law_attention<A: Arith>(
    q: Seq<F32>,
    k: Seq<F32>,
    v: Seq<F32>,
    d: AttnDims,
    n: int,
    style: AttnStyle,
    h: int,
    i: int,
)
    requires
        0 < n,
        0 <= h < d.num_attn_heads,
        0 <= i < d.head_dim,
        0 < d.num_kv_heads <= d.num_attn_heads,
        q.len() == d.num_attn_heads * d.head_dim,
        k.len() == v.len(),
        (n - 1) * (d.num_kv_heads * d.head_dim) + h / (d.num_attn_heads as int
            / d.num_kv_heads as int) * d.head_dim + d.head_dim <= k.len(),
    ensures
        ({
            let hd = d.head_dim as int;
            let head = h / (d.num_attn_heads as int / d.num_kv_heads as int) * hd;
            let at = |t: int| t * (d.num_kv_heads * d.head_dim) + head;
            let scores = Seq::new(
                n as nat,
                |t: int|
                    fmul::<A>(
                        sum_of::<A>(
                            Seq::new(
                                score_width(q, k, h * hd, at(t), hd, style) as nat,
                                |c: int| fmul::<A>(q[h * hd + c], k[at(t) + c]),
                            ),
                            SumOrder::LeftToRight,
                        ),
                        fdiv::<A>(one(), fsqrt::<A>(ffrom_int::<A>(hd as i64))),
                    ),
            );
            let weights = softmax::<A>(
                scores,
                if style == AttnStyle::Server {
                    SumOrder::LeftToRight
                } else {
                    SumOrder::Supplied
                },
            );
            let out = heads_out::<A>(q, k, v, d, n, d.num_attn_heads as int, style);
            &&& out.len() == d.num_attn_heads * hd
            &&& out[h * hd + i] == sum_of::<A>(
                Seq::new(n as nat, |t: int| fmul::<A>(weights[t], v[at(t) + i])),
                SumOrder::LeftToRight,
            )
        }),
{
    let (hd, nq, nkv) = (d.head_dim as int, d.num_attn_heads as int, d.num_kv_heads as int);
    let kv_dim = d.num_kv_heads * d.head_dim;
    let head = h / (nq / nkv) * hd;
    lemma_heads_len::<A>(q, k, v, d, n, nq, style);
    lemma_heads_at::<A>(q, k, v, d, n, nq, style, h, i);
    lemma_cell(h, nq, hd);
    vstd::arithmetic::div_mod::lemma_div_non_zero(nq, nkv);
    vstd::arithmetic::div_mod::lemma_div_pos_is_pos(h, nq / nkv);
    assert(0 <= head) by (nonlinear_arith)
        requires
            head == h / (nq / nkv) * hd,
            0 <= h / (nq / nkv),
            0 <= hd,
    ;
    let at = |t: int| t * (d.num_kv_heads * d.head_dim) + head;
    let scores = Seq::new(
        n as nat,
        |t: int|
            fmul::<A>(
                sum_of::<A>(
                    Seq::new(
                        score_width(q, k, h * hd, at(t), hd, style) as nat,
                        |c: int| fmul::<A>(q[h * hd + c], k[at(t) + c]),
                    ),
                    SumOrder::LeftToRight,
                ),
                fdiv::<A>(one(), fsqrt::<A>(ffrom_int::<A>(hd as i64))),
            ),
    );
    let qh = head_part(q, h * hd, hd, style);
    let s = scores_of::<A>(qh, k, kv_dim, head, hd, n, style);
    assert forall|t: int| 0 <= t < n implies s[t] == scores[t] by {
        assert(0 <= t * kv_dim <= (n - 1) * kv_dim) by (nonlinear_arith)
            requires
                0 <= t <= n - 1,
                0 <= kv_dim,
        ;
        let kp = head_part(k, t * kv_dim + head, hd, style);
        assert(products::<A>(qh, kp) =~= Seq::new(
            score_width(q, k, h * hd, at(t), hd, style) as nat,
            |c: int| fmul::<A>(q[h * hd + c], k[at(t) + c]),
        ));
    }
    assert(s =~= scores);
    let w = crate::attention::attn_weights::<A>(s, style);
    let p = Seq::new(n as nat, |t: int| fmul::<A>(w[t], v[at(t) + i]));
    lemma_weighted::<A>(w, v, kv_dim, head, i, p, n);
}

/// The queries of a token lie between the gates: each head has its queries first, then as many
/// gates.
pub proof fn law_queries_and_gates(q_proj: Seq<F32>, heads: int, hd: int, h: int, c: int)
    requires
        0 <= h < heads,
        0 <= c < hd,
    ensures
        query_part(q_proj, heads, hd, false).len() == heads * hd,
        query_part(q_proj, heads, hd, true).len() == heads * hd,
        query_part(q_proj, heads, hd, false)[h * hd + c] == q_proj[h * (2 * hd) + c],
        query_part(q_proj, heads, hd, true)[h * hd + c] == q_proj[h * (2 * hd) + hd + c],
{
    lemma_cell(h, heads, hd);
    lemma_flat(h, c, hd);
}

/// Positions turn pairs of neighbours: within each head, numbers `e` and `e + 1` with `e` even and
/// below `rotary_dim` are a point that is turned by the angle for the position and `e`. What is
/// not below stays.
pub proof fn law_rotation<A: Arith>(
    x: Seq<F32>,
    pos: usize,
    heads: int,
    hd: int,
    rotary_dim: usize,
    theta: u64,
    h: int,
    e: int,
)
    requires
        x.len() == heads * hd,
        0 <= h < heads,
        0 <= e < hd,
        e % 2 == 0,
        hd <= usize::MAX,
        (rotary_dim + 1) / 2 * 2 <= hd,
    ensures
        ({
            let a = h * hd + e;
            let r = roped::<A>(x, pos as int, heads, hd, rotary_dim as int, theta);
            let (cos, sin) = frotary::<A>(pos, e as usize, rotary_dim, theta);
            &&& r.len() == x.len()
            &&& e < rotary_dim ==> r[a] == fsub::<A>(
                fmul::<A>(x[a], cos),
                fmul::<A>(x[a + 1], sin),
            ) && r[a + 1] == fadd::<A>(fmul::<A>(x[a], sin), fmul::<A>(x[a + 1], cos))
            &&& e >= rotary_dim ==> r[a] == x[a] && (e + 1 < hd ==> r[a + 1] == x[a + 1])
        }),
{
    lemma_cell(h, heads, hd);
    lemma_flat(h, e, hd);
    if e + 1 < hd {
        lemma_flat(h, e + 1, hd);
    }
}

proof fn lemma_normed<A: Arith>(
    x: Seq<F32>,
    w: Seq<u16>,
    hd: int,
    heads: int,
    n: int,
    style: AttnStyle,
    i: int,
)
    requires
        x.len() == heads * hd,
        0 <= n <= heads,
        0 < hd,
        w.len() <= hd,
        0 <= i < x.len(),
    ensures
        heads_normed::<A>(x, w, hd, n, style).len() == x.len(),
        i >= n * hd ==> heads_normed::<A>(x, w, hd, n, style)[i] == x[i],
        i < n * hd ==> heads_normed::<A>(x, w, hd, n, style)[i] == head_normed::<A>(
            x,
            w,
            hd,
            i / hd,
            style,
        )[i],
    decreases n,
{
    if n > 0 {
        let b = heads_normed::<A>(x, w, hd, n - 1, style);
        lemma_cell(n - 1, heads, hd);
        lemma_normed::<A>(x, w, hd, heads, n - 1, style, i);
        let start = (n - 1) * hd;
        assert forall|j: int| start <= j < x.len() implies b[j] == x[j] by {
            lemma_normed::<A>(x, w, hd, heads, n - 1, style, j);
        }
        assert(b.skip(start) =~= x.skip(start));
        assert(b.subrange(start, start + hd) =~= x.subrange(start, start + hd));
        if start <= i < start + hd {
            lemma_flat(n - 1, i - start, hd);
        }
    }
}

/// The norm of the heads, number by number: each head is divided by a root mean square and
/// weighted, all heads by the same weights. Within heads it is that of the head alone; as the
/// server does it, the sum of squares runs on to the end of the vector. A number without a weight
/// stays.
pub proof fn law_head_norms<A: Arith>(
    ws: Weights,
    name: Seq<char>,
    x: Seq<F32>,
    heads: int,
    hd: int,
    style: AttnStyle,
    h: int,
    c: int,
)
    requires
        x.len() == heads * hd,
        0 <= h < heads,
        0 <= c < hd,
        u16s_of(ws, name) matches Some(w) ==> w.len() <= hd,
    ensures
        ({
            let from = h * hd;
            let width = if style == AttnStyle::Server {
                x.len() - from
            } else {
                hd
            };
            let inv = fdiv::<A>(
                one(),
                fsqrt::<A>(
                    fadd::<A>(
                        fdiv::<A>(
                            sum_of::<A>(
                                Seq::new(
                                    width as nat,
                                    |e: int| fmul::<A>(x[from + e], x[from + e]),
                                ),
                                if style == AttnStyle::Server {
                                    SumOrder::LeftToRight
                                } else {
                                    SumOrder::Supplied
                                },
                            ),
                            ffrom_int::<A>(hd as i64),
                        ),
                        rms_norm_eps(),
                    ),
                ),
            );
            let r = heads_normed_by::<A>(ws, name, x, heads, hd, style);
            &&& r.len() == x.len()
            &&& r[from + c] == match u16s_of(ws, name) {
                None => x[from + c],
                Some(w) => if c >= w.len() {
                    x[from + c]
                } else if style == AttnStyle::Server {
                    fmul::<A>(fmul::<A>(x[from + c], inv), of_bf16(w[c]))
                } else {
                    fmul::<A>(x[from + c], fmul::<A>(inv, of_bf16(w[c])))
                },
            }
        }),
{
    lemma_cell(h, heads, hd);
    lemma_flat(h, c, hd);
    let from = h * hd;
    match u16s_of(ws, name) {
        None => {},
        Some(w) => {
            lemma_normed::<A>(x, w, hd, heads, heads, style, from + c);
            assert(squares::<A>(x.skip(from)) =~= Seq::new(
                (x.len() - from) as nat,
                |e: int| fmul::<A>(x[from + e], x[from + e]),
            ));
            assert(squares::<A>(x.subrange(from, from + hd)) =~= Seq::new(
                hd as nat,
                |e: int| fmul::<A>(x[from + e], x[from + e]),
            ));
        },
    }
}

/// Keys and values of a token lie behind those of the tokens before it, which stay, and so does
/// the room behind it.
pub proof fn law_remembered(cache: Seq<F32>, len: int, d: AttnDims, x: Seq<F32>, i: int)
    requires
        0 <= len,
        x.len() == d.num_kv_heads * d.head_dim,
        len * x.len() + x.len() <= cache.len(),
        0 <= i < cache.len(),
    ensures
        remembered(cache, len, d, x).len() == cache.len(),
        remembered(cache, len, d, x)[i] == if len * x.len() <= i < (len + 1) * x.len() {
            x[i - len * x.len()]
        } else {
            cache[i]
        },
{
    lemma_cell(len, len + 1, x.len() as int);
}

/// Attention of a token, put together: the first of the query projection's parts are the queries,
/// and they and the keys are normed, each by its own weights, and turned by the token's position.
/// The cache takes keys and values in before the heads look at it. Each number of the output is
/// then scaled by the logistic function of its gate, or, within heads, put through the activation
/// function.
pub proof fn law_attended<A: Arith>(
    ws: Weights,
    layer: int,
    q_proj: Seq<F32>,
    k: Seq<F32>,
    v: Seq<F32>,
    k_cache: Seq<F32>,
    v_cache: Seq<F32>,
    len: int,
    pos: int,
    d: AttnDims,
    style: AttnStyle,
    h: int,
    c: int,
)
    requires
        0 <= h < d.num_attn_heads,
        0 <= c < d.head_dim,
    ensures
        ({
            let (nq, nkv, hd) = (
                d.num_attn_heads as int,
                d.num_kv_heads as int,
                d.head_dim as int,
            );
            let turn = |x: Seq<F32>, rest: Seq<char>, heads: int|
                roped::<A>(
                    heads_normed_by::<A>(ws, in_layer(layer, rest), x, heads, hd, style),
                    pos,
                    heads,
                    hd,
                    d.rotary_dim as int,
                    d.rope_theta,
                );
            let q = turn(query_part(q_proj, nq, hd, false), ".self_attn.q_norm.weight"@, nq);
            let keys = turn(k, ".self_attn.k_norm.weight"@, nkv);
            let out = heads_out::<A>(
                q,
                remembered(k_cache, len, d, keys),
                remembered(v_cache, len, d, v),
                d,
                len + 1,
                nq,
                style,
            );
            let gate = q_proj[h * (2 * hd) + hd + c];
            let r = attended::<A>(ws, layer, q_proj, k, v, k_cache, v_cache, len, pos, d, style);
            let y = out[h * hd + c];
            &&& r.len() == nq * hd
            &&& r[h * hd + c] == match style {
                AttnStyle::Server => fmul::<A>(
                    y,
                    fdiv::<A>(one(), fadd::<A>(one(), fexp::<A>(fneg(gate)))),
                ),
                AttnStyle::Reference => fdiv::<A>(y, fadd::<A>(one(), fexp::<A>(fneg(y)))),
            }
        }),
{
    let (nq, hd) = (d.num_attn_heads as int, d.head_dim as int);
    lemma_cell(h, nq, hd);
    law_queries_and_gates(q_proj, nq, hd, h, c);
    lemma_heads_len::<A>(
        queries::<A>(ws, layer, q_proj, pos, d, style),
        remembered(k_cache, len, d, keys::<A>(ws, layer, k, pos, d, style)),
        remembered(v_cache, len, d, v),
        d,
        len + 1,
        nq,
        style,
    );
}

/// Full attention of a layer, put together: the three projections of the normed vector, attention
/// over the tokens so far and this one, the output projection, and the sum with the residual. The
/// cache holds one token more, with the turned keys and the values as they are.
pub proof fn law_full_attention<A: Arith>(
    ws: Weights,
    layer: int,
    normed: Seq<F32>,
    residual: Seq<F32>,
    kv: Tokens,
    pos: int,
    d: AttnDims,
    style: AttnStyle,
    i: int,
)
    requires
        0 <= i < residual.len(),
    ensures
        ({
            let (nq, nkv, hd) = (
                d.num_attn_heads as int,
                d.num_kv_heads as int,
                d.head_dim as int,
            );
            let of = |rest: Seq<char>, x: Seq<F32>, rows: int|
                projected::<A>(ws, in_layer(layer, rest), x, rows);
            let q = of(".self_attn.q_proj"@, normed, nq * (2 * hd));
            let k = of(".self_attn.k_proj"@, normed, nkv * hd);
            let v = of(".self_attn.v_proj"@, normed, nkv * hd);
            let y = attended::<A>(ws, layer, q, k, v, kv.k, kv.v, kv.len, pos, d, style);
            let turned = roped::<A>(
                heads_normed_by::<A>(
                    ws,
                    in_layer(layer, ".self_attn.k_norm.weight"@),
                    k,
                    nkv,
                    hd,
                    style,
                ),
                pos,
                nkv,
                hd,
                d.rotary_dim as int,
                d.rope_theta,
            );
            let after = next_tokens::<A>(ws, layer, normed, kv, pos, d, style);
            &&& after_attention::<A>(ws, layer, normed, residual, kv, pos, d, style)[i]
                == fadd::<A>(residual[i], of(".self_attn.o_proj"@, y, residual.len() as int)[i])
            &&& after.len == kv.len + 1
            &&& after.k == remembered(kv.k, kv.len, d, turned)
            &&& after.v == remembered(kv.v, kv.len, d, v)
        }),
{
}

/// Query heads share key heads in consecutive groups of the same size: a key head serves exactly
/// the heads of its group, and where the one number divides the other, every key head has one.
pub proof fn law_grouped_heads(nq: int, nkv: int, h: int, j: int)
    requires
        0 < nkv <= nq,
        0 <= h < nq,
    ensures
        kv_head(h, nq, nkv) == j <==> j * (nq / nkv) <= h < (j + 1) * (nq / nkv),
        nq % nkv == 0 && 0 <= j < nkv ==> kv_head(j * (nq / nkv), nq, nkv) == j && j * (nq / nkv)
            < nq,
{
    let per = nq / nkv;
    vstd::arithmetic::div_mod::lemma_div_non_zero(nq, nkv);
    vstd::arithmetic::div_mod::lemma_fundamental_div_mod(h, per);
    vstd::arithmetic::div_mod::lemma_fundamental_div_mod(nq, nkv);
    let (q, r) = (h / per, h % per);
    assert(q == j <==> j * per <= h < (j + 1) * per) by (nonlinear_arith)
        requires
            h == per * q + r,
            0 <= r < per,
    ;
    if nq % nkv == 0 && 0 <= j < nkv {
        lemma_flat(j, 0, per);
        assert(j * per < nkv * per) by (nonlinear_arith)
            requires
                j < nkv,
                0 < per,
        ;
    }
}

} // verus!
