//! Full attention over all tokens so far.

use crate::bf16::{bf16_to_f32, of_bf16};
use crate::cache::{FullAttnCache, Tokens};
use crate::constants::rms_norm_eps;
use crate::float::{
    Arith, F32, deterministic, fadd, fdiv, ffrom_int, fmul, fsqrt, one, zero,
};
use crate::grid::{lemma_cell, lemma_flat};
use crate::math::{
    SumOrder, add_vec, added, cpu_sigmoid, cpu_softmax, fsigmoid, fsilu, inv_rms, inv_rms_of, silu,
    softmax, sum, sum_of,
};
use crate::rope::{apply_rotary_emb, roped, turned};
use crate::weights::{
    Weights, in_layer, layer_name, named_fits, norm_fits, normed_by, norm_by, project, projected,
    u16s_of,
};
use vstd::prelude::*;
use vstd::slice::slice_subrange;

verus! {

/// The sizes of full attention.
#[derive(Clone, Copy)]
pub struct AttnDims {
    pub num_attn_heads: usize,
    pub num_kv_heads: usize,
    pub head_dim: usize,
    pub rotary_dim: usize,
    pub rope_theta: u64,
}

/// Which of two ways attention takes.
///
/// `Server`: the norm of a head and its scores run on to the end of the vectors, and the output is
/// scaled by the logistic function of a second query. `Reference`: norm and scores stay within a
/// head, and the output goes through the activation function.
#[derive(Clone, Copy, PartialEq, Eq, Structural, Debug)]
pub enum AttnStyle {
    Server,
    Reference,
}

/// In which order a way of attention sums its norms and its exponentials.
pub open spec fn order_of(style: AttnStyle) -> SumOrder {
    match style {
        AttnStyle::Server => SumOrder::LeftToRight,
        AttnStyle::Reference => SumOrder::Supplied,
    }
}

fn sum_order(style: AttnStyle) -> (r: SumOrder)
    ensures
        r == order_of(style),
{
    match style {
        AttnStyle::Server => SumOrder::LeftToRight,
        AttnStyle::Reference => SumOrder::Supplied,
    }
}

/// The queries, or the second queries, of the interleaved output of the query projection: each
/// head has `head_dim` of the one, then `head_dim` of the other.
pub open spec fn query_part(q_proj: Seq<F32>, heads: int, head_dim: int, second: bool) -> Seq<F32> {
    Seq::new(
        (heads * head_dim) as nat,
        |i: int|
            q_proj[i / head_dim * (2 * head_dim) + i % head_dim + if second {
                head_dim
            } else {
                0
            }],
    )
}

/// Splits the output of the query projection.
fn split_queries(q_proj: &[F32], heads: usize, head_dim: usize, second: bool) -> (r: Vec<F32>)
    requires
        q_proj@.len() == heads * (2 * head_dim),
        heads * (2 * head_dim) <= usize::MAX,
    ensures
        r@ == query_part(q_proj@, heads as int, head_dim as int, second),
{
    let mut out: Vec<F32> = Vec::new();
    assert(0 * (head_dim as int) == 0);
    for h in 0..heads
        invariant
            q_proj@.len() == heads * (2 * head_dim),
            heads * (2 * head_dim) <= usize::MAX,
            out@.len() == h * head_dim,
            forall|k: int|
                0 <= k < out@.len() ==> #[trigger] out@[k] == query_part(
                    q_proj@,
                    heads as int,
                    head_dim as int,
                    second,
                )[k],
    {
        proof {
            lemma_cell(h as int, heads as int, head_dim as int);
            lemma_cell(h as int, heads as int, 2 * head_dim);
        }
        for d in 0..head_dim
            invariant
                h < heads,
                q_proj@.len() == heads * (2 * head_dim),
                heads * (2 * head_dim) <= usize::MAX,
                h * (2 * head_dim) + 2 * head_dim <= q_proj@.len(),
                h * head_dim + head_dim <= heads * head_dim,
                0 <= h * (2 * head_dim),
                out@.len() == h * head_dim + d,
                forall|k: int|
                    0 <= k < out@.len() ==> #[trigger] out@[k] == query_part(
                        q_proj@,
                        heads as int,
                        head_dim as int,
                        second,
                    )[k],
        {
            proof {
                lemma_flat(h as int, d as int, head_dim as int);
            }
            let base: usize = h * (2 * head_dim);
            let v: F32 = if second {
                q_proj[base + d + head_dim]
            } else {
                q_proj[base + d]
            };
            out.push(v);
        }
    }
    out
}

/// Head `h` after its norm; earlier heads are done.
pub open spec fn head_normed<A: Arith>(
    x: Seq<F32>,
    w: Seq<u16>,
    head_dim: int,
    h: int,
    style: AttnStyle,
) -> Seq<F32> {
    let start = h * head_dim;
    match style {
        AttnStyle::Server => {
            let inv = inv_rms_of::<A>(
                x.skip(start),
                head_dim,
                rms_norm_eps(),
                SumOrder::LeftToRight,
            );
            Seq::new(
                x.len(),
                |i: int|
                    if start <= i && i - start < w.len() {
                        fmul::<A>(fmul::<A>(x[i], inv), of_bf16(w[i - start]))
                    } else {
                        x[i]
                    },
            )
        },
        AttnStyle::Reference => {
            let inv = inv_rms_of::<A>(
                x.subrange(start, start + head_dim),
                head_dim,
                rms_norm_eps(),
                SumOrder::Supplied,
            );
            Seq::new(
                x.len(),
                |i: int|
                    if start <= i < start + head_dim && i - start < w.len() {
                        fmul::<A>(x[i], fmul::<A>(inv, of_bf16(w[i - start])))
                    } else {
                        x[i]
                    },
            )
        },
    }
}

/// The first `n` heads after their norms, one after the other.
pub open spec fn heads_normed<A: Arith>(
    x: Seq<F32>,
    w: Seq<u16>,
    head_dim: int,
    n: int,
    style: AttnStyle,
) -> Seq<F32>
    decreases n,
{
    if n <= 0 {
        x
    } else {
        head_normed::<A>(
            heads_normed::<A>(x, w, head_dim, n - 1, style),
            w,
            head_dim,
            n - 1,
            style,
        )
    }
}

/// The heads after the named norm; unchanged where its weights are not there.
pub open spec fn heads_normed_by<A: Arith>(
    ws: Weights,
    name: Seq<char>,
    x: Seq<F32>,
    heads: int,
    head_dim: int,
    style: AttnStyle,
) -> Seq<F32> {
    match u16s_of(ws, name) {
        Some(w) => heads_normed::<A>(x, w, head_dim, heads, style),
        None => x,
    }
}

fn norm_head<A: Arith>(x: &Vec<F32>, w: &[u16], heads: usize, head_dim: usize, h: usize, style: AttnStyle) -> (r:
    Vec<F32>)
    requires
        x@.len() == heads * head_dim,
        head_dim <= i64::MAX,
        h < heads,
    ensures
        r@.len() == x@.len(),
        deterministic::<A>() ==> r@ == head_normed::<A>(x@, w@, head_dim as int, h as int, style),
{
    proof {
        lemma_cell(h as int, heads as int, head_dim as int);
        assert(x.len() == x@.len());
    }
    let start: usize = h * head_dim;
    let n: usize = x.len();
    let end: usize = match style {
        AttnStyle::Server => n,
        AttnStyle::Reference => start + head_dim,
    };
    let part: &[F32] = slice_subrange(x.as_slice(), start, end);
    assert(style == AttnStyle::Server ==> part@ =~= x@.skip(start as int));
    let inv: F32 = inv_rms::<A>(part, head_dim, rms_norm_eps(), sum_order(style));
    let mut out: Vec<F32> = Vec::new();
    for i in 0..n
        invariant
            n == x@.len(),
            start <= end <= n,
            style == AttnStyle::Server ==> end == n,
            style == AttnStyle::Reference ==> end == start + head_dim,
            out@.len() == i,
            deterministic::<A>() ==> forall|k: int|
                0 <= k < i ==> #[trigger] out@[k] == if start <= k < end && k - start < w@.len() {
                    if style == AttnStyle::Server {
                        fmul::<A>(fmul::<A>(x@[k], inv), of_bf16(w@[k - start]))
                    } else {
                        fmul::<A>(x@[k], fmul::<A>(inv, of_bf16(w@[k - start])))
                    }
                } else {
                    x@[k]
                },
    {
        let v: F32 = x[i];
        if start <= i && i < end && i - start < w.len() {
            let c: F32 = bf16_to_f32(w[i - start]);
            match style {
                AttnStyle::Server => {
                    out.push(A::mul(A::mul(v, inv), c));
                },
                AttnStyle::Reference => {
                    out.push(A::mul(v, A::mul(inv, c)));
                },
            }
        } else {
            out.push(v);
        }
    }
    proof {
        if deterministic::<A>() {
            assert(out@ =~= head_normed::<A>(x@, w@, head_dim as int, h as int, style));
        }
    }
    out
}

fn norm_heads<A: Arith>(
    ws: &Weights,
    name: &str,
    x: Vec<F32>,
    heads: usize,
    head_dim: usize,
    style: AttnStyle,
) -> (r: Vec<F32>)
    requires
        x@.len() == heads * head_dim,
        head_dim <= i64::MAX,
    ensures
        r@.len() == x@.len(),
        deterministic::<A>() ==> r@ == heads_normed_by::<A>(
            *ws,
            name@,
            x@,
            heads as int,
            head_dim as int,
            style,
        ),
{
    match ws.get_tensor_u16(name) {
        None => x,
        Some(w) => {
            let ghost x0 = x@;
            let mut out: Vec<F32> = x;
            for h in 0..heads
                invariant
                    x0.len() == heads * head_dim,
                    head_dim <= i64::MAX,
                    out@.len() == x0.len(),
                    deterministic::<A>() ==> out@ == heads_normed::<A>(
                        x0,
                        w@,
                        head_dim as int,
                        h as int,
                        style,
                    ),
            {
                out = norm_head::<A>(&out, w, heads, head_dim, h, style);
            }
            out
        },
    }
}

/// A cache after new numbers were written from `start` on.
pub open spec fn overwritten(cache: Seq<F32>, start: int, x: Seq<F32>) -> Seq<F32> {
    Seq::new(
        cache.len(),
        |i: int|
            if start <= i < start + x.len() {
                x[i - start]
            } else {
                cache[i]
            },
    )
}

fn overwrite(cache: &mut Vec<F32>, start: usize, x: &[F32])
    requires
        start + x@.len() <= old(cache)@.len(),
    ensures
        final(cache)@ == overwritten(old(cache)@, start as int, x@),
{
    let ghost before = cache@;
    assert(cache.len() == cache@.len());
    for i in 0..x.len()
        invariant
            start + x@.len() <= cache@.len() <= usize::MAX,
            cache@.len() == before.len(),
            forall|k: int|
                0 <= k < cache@.len() ==> #[trigger] cache@[k] == if start <= k < start + i {
                    x@[k - start]
                } else {
                    before[k]
                },
    {
        let v: F32 = x[i];
        cache.set(start + i, v);
    }
    assert(cache@ =~= overwritten(before, start as int, x@));
}

/// Products of numbers at equal places, as far as both go.
pub open spec fn products<A: Arith>(a: Seq<F32>, b: Seq<F32>) -> Seq<F32> {
    Seq::new(
        if a.len() <= b.len() {
            a.len()
        } else {
            b.len()
        },
        |i: int| fmul::<A>(a[i], b[i]),
    )
}

/// The part of a vector from `start` on that a head looks at.
pub open spec fn head_part(x: Seq<F32>, start: int, head_dim: int, style: AttnStyle) -> Seq<F32> {
    match style {
        AttnStyle::Server => x.skip(start),
        AttnStyle::Reference => x.subrange(start, start + head_dim),
    }
}

/// Which key head a query head uses.
pub open spec fn kv_head(h: int, heads: int, kv_heads: int) -> int {
    h / (heads / kv_heads)
}

/// `1 / sqrt(head_dim)`.
pub open spec fn attn_scale<A: Arith>(head_dim: int) -> F32 {
    fdiv::<A>(one(), fsqrt::<A>(ffrom_int::<A>(head_dim as i64)))
}

/// The score of token `p` for the queries of a head: the products with its keys, summed and
/// scaled. `at` is where the keys of the token's key head begin.
pub open spec fn score<A: Arith>(
    q: Seq<F32>,
    k_cache: Seq<F32>,
    at: int,
    head_dim: int,
    style: AttnStyle,
) -> F32 {
    fmul::<A>(
        sum_of::<A>(
            products::<A>(q, head_part(k_cache, at, head_dim, style)),
            SumOrder::LeftToRight,
        ),
        attn_scale::<A>(head_dim),
    )
}

/// The scores of `n` tokens.
pub open spec fn scores_of<A: Arith>(
    q: Seq<F32>,
    k_cache: Seq<F32>,
    kv_dim: int,
    off: int,
    head_dim: int,
    n: int,
    style: AttnStyle,
) -> Seq<F32> {
    Seq::new(
        n as nat,
        |p: int| score::<A>(q, k_cache, p * kv_dim + off, head_dim, style),
    )
}

/// Number `d` of the values of the first `n` tokens, each times the token's weight, summed from
/// zero on.
pub open spec fn weighted<A: Arith>(
    weights: Seq<F32>,
    v_cache: Seq<F32>,
    kv_dim: int,
    off: int,
    d: int,
    n: int,
) -> F32
    decreases n,
{
    if n <= 0 {
        zero()
    } else {
        fadd::<A>(
            weighted::<A>(weights, v_cache, kv_dim, off, d, n - 1),
            fmul::<A>(weights[n - 1], v_cache[(n - 1) * kv_dim + off + d]),
        )
    }
}

/// The weights of tokens with given scores: exponentials over their sum.
pub open spec fn attn_weights<A: Arith>(scores: Seq<F32>, style: AttnStyle) -> Seq<F32> {
    softmax::<A>(scores, order_of(style))
}

/// The output of head `h` over the first `n` tokens.
pub open spec fn head_out<A: Arith>(
    q: Seq<F32>,
    k_cache: Seq<F32>,
    v_cache: Seq<F32>,
    d: AttnDims,
    n: int,
    h: int,
    style: AttnStyle,
) -> Seq<F32> {
    let kv_dim = d.num_kv_heads * d.head_dim;
    let off = kv_head(h, d.num_attn_heads as int, d.num_kv_heads as int) * d.head_dim;
    let qh = head_part(q, h * d.head_dim, d.head_dim as int, style);
    let s = scores_of::<A>(qh, k_cache, kv_dim, off, d.head_dim as int, n, style);
    Seq::new(
        d.head_dim as nat,
        |i: int| weighted::<A>(attn_weights::<A>(s, style), v_cache, kv_dim, off, i, n),
    )
}

/// The outputs of the first `h` heads, one behind the other.
pub open spec fn heads_out<A: Arith>(
    q: Seq<F32>,
    k_cache: Seq<F32>,
    v_cache: Seq<F32>,
    d: AttnDims,
    n: int,
    h: int,
    style: AttnStyle,
) -> Seq<F32>
    decreases h,
{
    if h <= 0 {
        Seq::empty()
    } else {
        heads_out::<A>(q, k_cache, v_cache, d, n, h - 1, style) + head_out::<A>(
            q,
            k_cache,
            v_cache,
            d,
            n,
            h - 1,
            style,
        )
    }
}

/// The keys and values that the heads look at lie within the caches of length `len` when there are
/// `n` tokens.
pub open spec fn heads_fit(d: AttnDims, len: int, n: int) -> bool {
    let kv_dim = d.num_kv_heads * d.head_dim;
    &&& d.num_kv_heads > 0
    &&& d.num_attn_heads == 0 || d.num_attn_heads >= d.num_kv_heads
    &&& forall|h: int|
        0 <= h < d.num_attn_heads && n > 0 ==> (n - 1) * kv_dim + #[trigger] kv_head(
            h,
            d.num_attn_heads as int,
            d.num_kv_heads as int,
        ) * d.head_dim + d.head_dim <= len
}

fn score_token<A: Arith>(
    q: &[F32],
    k_cache: &Vec<F32>,
    at: usize,
    head_dim: usize,
    factor: F32,
    style: AttnStyle,
) -> (r: F32)
    requires
        at + head_dim <= k_cache@.len(),
        deterministic::<A>() ==> factor == attn_scale::<A>(head_dim as int),
    ensures
        deterministic::<A>() ==> r == score::<A>(q@, k_cache@, at as int, head_dim as int, style),
{
    assert(k_cache.len() == k_cache@.len());
    let n: usize = k_cache.len();
    let end: usize = match style {
        AttnStyle::Server => n,
        AttnStyle::Reference => at + head_dim,
    };
    let k: &[F32] = slice_subrange(k_cache.as_slice(), at, end);
    assert(k@ =~= head_part(k_cache@, at as int, head_dim as int, style));
    let m: usize = if q.len() <= k.len() {
        q.len()
    } else {
        k.len()
    };
    let mut prods: Vec<F32> = Vec::new();
    for i in 0..m
        invariant
            m <= q@.len(),
            m <= k@.len(),
            prods@.len() == i,
            deterministic::<A>() ==> forall|j: int|
                0 <= j < i ==> #[trigger] prods@[j] == fmul::<A>(q@[j], k@[j]),
    {
        prods.push(A::mul(q[i], k[i]));
    }
    proof {
        if deterministic::<A>() {
            assert(prods@ =~= products::<A>(q@, k@));
        }
    }
    A::mul(sum::<A>(prods.as_slice(), SumOrder::LeftToRight), factor)
}

proof fn lemma_token(n: int, p: int, kv_dim: int, off: int, head_dim: int, len: int)
    requires
        0 <= p < n,
        0 <= kv_dim,
        0 <= off,
        (n - 1) * kv_dim + off + head_dim <= len,
    ensures
        0 <= p * kv_dim,
        p * kv_dim + off + head_dim <= len,
{
    assert(0 <= p * kv_dim <= (n - 1) * kv_dim) by (nonlinear_arith)
        requires
            0 <= p <= n - 1,
            0 <= kv_dim,
    ;
}

fn attend_head<A: Arith>(
    q: &Vec<F32>,
    kv: &FullAttnCache,
    d: &AttnDims,
    n: usize,
    h: usize,
    style: AttnStyle,
) -> (r: Vec<F32>)
    requires
        h < d.num_attn_heads,
        q@.len() == d.num_attn_heads * d.head_dim,
        kv.k_cache@.len() == kv.v_cache@.len(),
        d.num_kv_heads * d.head_dim <= usize::MAX,
        d.head_dim <= i64::MAX,
        heads_fit(*d, kv.k_cache@.len() as int, n as int),
        n > 0,
    ensures
        r@.len() == d.head_dim,
        deterministic::<A>() ==> r@ == head_out::<A>(
            q@,
            kv.k_cache@,
            kv.v_cache@,
            *d,
            n as int,
            h as int,
            style,
        ),
{
    let kv_dim: usize = d.num_kv_heads * d.head_dim;
    let len: usize = kv.k_cache.len();
    let ghost kvh = kv_head(h as int, d.num_attn_heads as int, d.num_kv_heads as int);
    proof {
        lemma_cell(h as int, d.num_attn_heads as int, d.head_dim as int);
        vstd::arithmetic::div_mod::lemma_div_non_zero(
            d.num_attn_heads as int,
            d.num_kv_heads as int,
        );
        vstd::arithmetic::div_mod::lemma_div_pos_is_pos(
            h as int,
            d.num_attn_heads as int / d.num_kv_heads as int,
        );
        assert(kvh * d.head_dim >= 0) by (nonlinear_arith)
            requires
                kvh >= 0,
        ;
        assert((n - 1) * kv_dim >= 0) by (nonlinear_arith)
            requires
                n > 0,
        ;
        assert(q.len() == q@.len() && kv.v_cache.len() == kv.v_cache@.len());
    }
    let off: usize = h / (d.num_attn_heads / d.num_kv_heads) * d.head_dim;
    let start: usize = h * d.head_dim;
    let end: usize = match style {
        AttnStyle::Server => q.len(),
        AttnStyle::Reference => start + d.head_dim,
    };
    let qh: &[F32] = slice_subrange(q.as_slice(), start, end);
    assert(qh@ =~= head_part(q@, h * d.head_dim, d.head_dim as int, style));
    let factor: F32 = A::div(one(), A::sqrt(A::from_int(d.head_dim as i64)));
    let mut scores: Vec<F32> = Vec::new();
    for p in 0..n
        invariant
            len == kv.k_cache@.len(),
            (n - 1) * kv_dim + off + d.head_dim <= len,
            scores@.len() == p,
            deterministic::<A>() ==> factor == attn_scale::<A>(d.head_dim as int),
            deterministic::<A>() ==> forall|i: int|
                0 <= i < p ==> #[trigger] scores@[i] == score::<A>(
                    qh@,
                    kv.k_cache@,
                    i * kv_dim + off,
                    d.head_dim as int,
                    style,
                ),
    {
        proof {
            lemma_token(
                n as int,
                p as int,
                kv_dim as int,
                off as int,
                d.head_dim as int,
                len as int,
            );
        }
        scores.push(
            score_token::<A>(qh, &kv.k_cache, p * kv_dim + off, d.head_dim, factor, style),
        );
    }
    let weights: Vec<F32> = cpu_softmax::<A>(scores.as_slice(), sum_order(style));
    let ghost s = scores_of::<A>(
        qh@,
        kv.k_cache@,
        kv_dim as int,
        off as int,
        d.head_dim as int,
        n as int,
        style,
    );
    assert(deterministic::<A>() ==> scores@ =~= s);
    let mut out: Vec<F32> = Vec::new();
    for i in 0..d.head_dim
        invariant
            len == kv.k_cache@.len() == kv.v_cache@.len(),
            (n - 1) * kv_dim + off + d.head_dim <= len,
            weights@.len() == n,
            deterministic::<A>() ==> weights@ == attn_weights::<A>(s, style),
            out@.len() == i,
            deterministic::<A>() ==> forall|j: int|
                0 <= j < i ==> #[trigger] out@[j] == weighted::<A>(
                    attn_weights::<A>(s, style),
                    kv.v_cache@,
                    kv_dim as int,
                    off as int,
                    j,
                    n as int,
                ),
    {
        let mut acc: F32 = zero();
        for p in 0..n
            invariant
                len == kv.v_cache@.len(),
                (n - 1) * kv_dim + off + d.head_dim <= len,
                i < d.head_dim,
                weights@.len() == n,
                deterministic::<A>() ==> weights@ == attn_weights::<A>(s, style),
                deterministic::<A>() ==> acc == weighted::<A>(
                    attn_weights::<A>(s, style),
                    kv.v_cache@,
                    kv_dim as int,
                    off as int,
                    i as int,
                    p as int,
                ),
        {
            proof {
                lemma_token(
                    n as int,
                    p as int,
                    kv_dim as int,
                    off as int,
                    d.head_dim as int,
                    len as int,
                );
            }
            acc = A::add(acc, A::mul(weights[p], kv.v_cache[p * kv_dim + off + i]));
        }
        out.push(acc);
    }
    out
}

fn attend<A: Arith>(q: &Vec<F32>, kv: &FullAttnCache, d: &AttnDims, style: AttnStyle) -> (r: Vec<
    F32,
>)
    requires
        q@.len() == d.num_attn_heads * d.head_dim,
        kv.k_cache@.len() == kv.v_cache@.len(),
        d.num_kv_heads * d.head_dim <= usize::MAX,
        d.head_dim <= i64::MAX,
        heads_fit(*d, kv.k_cache@.len() as int, kv.len as int),
        kv.len > 0,
    ensures
        r@.len() == d.num_attn_heads * d.head_dim,
        deterministic::<A>() ==> r@ == heads_out::<A>(
            q@,
            kv.k_cache@,
            kv.v_cache@,
            *d,
            kv.len as int,
            d.num_attn_heads as int,
            style,
        ),
{
    let mut out: Vec<F32> = Vec::new();
    assert(0 * (d.head_dim as int) == 0);
    for h in 0..d.num_attn_heads
        invariant
            q@.len() == d.num_attn_heads * d.head_dim,
            kv.k_cache@.len() == kv.v_cache@.len(),
            d.num_kv_heads * d.head_dim <= usize::MAX,
            d.head_dim <= i64::MAX,
            heads_fit(*d, kv.k_cache@.len() as int, kv.len as int),
            kv.len > 0,
            out@.len() == h * d.head_dim,
            deterministic::<A>() ==> out@ == heads_out::<A>(
                q@,
                kv.k_cache@,
                kv.v_cache@,
                *d,
                kv.len as int,
                h as int,
                style,
            ),
    {
        proof {
            lemma_cell(h as int, d.num_attn_heads as int, d.head_dim as int);
        }
        let mut part: Vec<F32> = attend_head::<A>(q, kv, d, kv.len, h, style);
        out.append(&mut part);
    }
    out
}

/// The output of attention after its gate.
pub open spec fn gated<A: Arith>(attn: Seq<F32>, second: Seq<F32>, style: AttnStyle) -> Seq<F32> {
    Seq::new(
        attn.len(),
        |i: int|
            match style {
                AttnStyle::Server => fmul::<A>(attn[i], fsigmoid::<A>(second[i])),
                AttnStyle::Reference => fsilu::<A>(attn[i]),
            },
    )
}

fn apply_second_queries<A: Arith>(attn: &Vec<F32>, second: &Vec<F32>, style: AttnStyle) -> (r: Vec<
    F32,
>)
    requires
        attn@.len() == second@.len(),
    ensures
        r@.len() == attn@.len(),
        deterministic::<A>() ==> r@ == gated::<A>(attn@, second@, style),
{
    let mut out: Vec<F32> = Vec::new();
    for i in 0..attn.len()
        invariant
            attn@.len() == second@.len(),
            out@.len() == i,
            deterministic::<A>() ==> forall|j: int|
                0 <= j < i ==> #[trigger] out@[j] == gated::<A>(attn@, second@, style)[j],
    {
        match style {
            AttnStyle::Server => {
                let g: F32 = cpu_sigmoid::<A>(second[i]);
                out.push(A::mul(attn[i], g));
            },
            AttnStyle::Reference => {
                out.push(silu::<A>(attn[i]));
            },
        }
    }
    proof {
        if deterministic::<A>() {
            assert(out@ =~= gated::<A>(attn@, second@, style));
        }
    }
    out
}

/// The queries of a token: the first part of the projection, after norm and turning.
pub open spec fn queries<A: Arith>(
    ws: Weights,
    layer: int,
    q_proj: Seq<F32>,
    pos: int,
    d: AttnDims,
    style: AttnStyle,
) -> Seq<F32> {
    let (heads, head_dim) = (d.num_attn_heads as int, d.head_dim as int);
    roped::<A>(
        heads_normed_by::<A>(
            ws,
            in_layer(layer, ".self_attn.q_norm.weight"@),
            query_part(q_proj, heads, head_dim, false),
            heads,
            head_dim,
            style,
        ),
        pos,
        heads,
        head_dim,
        d.rotary_dim as int,
        d.rope_theta,
    )
}

/// The keys of a token: the projection after norm and turning.
pub open spec fn keys<A: Arith>(
    ws: Weights,
    layer: int,
    k: Seq<F32>,
    pos: int,
    d: AttnDims,
    style: AttnStyle,
) -> Seq<F32> {
    let (heads, head_dim) = (d.num_kv_heads as int, d.head_dim as int);
    roped::<A>(
        heads_normed_by::<A>(
            ws,
            in_layer(layer, ".self_attn.k_norm.weight"@),
            k,
            heads,
            head_dim,
            style,
        ),
        pos,
        heads,
        head_dim,
        d.rotary_dim as int,
        d.rope_theta,
    )
}

/// Keys or values of all tokens, with those of a new token put behind the others.
pub open spec fn remembered(cache: Seq<F32>, len: int, d: AttnDims, x: Seq<F32>) -> Seq<F32> {
    overwritten(cache, len * (d.num_kv_heads * d.head_dim), x)
}

/// The output of attention for a new token, given its projections and the caches before it.
pub open spec fn attended<A: Arith>(
    ws: Weights,
    layer: int,
    q_proj: Seq<F32>,
    k: Seq<F32>,
    v: Seq<F32>,
    k_cache: Seq<F32>,
    v_cache: Seq<F32>,
    len: int,
    pos: int,
    d: AttnDims,
    style: AttnStyle,
) -> Seq<F32> {
    let heads = d.num_attn_heads as int;
    gated::<A>(
        heads_out::<A>(
            queries::<A>(ws, layer, q_proj, pos, d, style),
            remembered(k_cache, len, d, keys::<A>(ws, layer, k, pos, d, style)),
            remembered(v_cache, len, d, v),
            d,
            len + 1,
            heads,
            style,
        ),
        query_part(q_proj, heads, d.head_dim as int, true),
        style,
    )
}

/// What attention needs of the sizes and of the cache: the machine can address the heads, the
/// turned numbers lie within a head, and the cache has room for one more token.
pub open spec fn attn_fits(d: AttnDims, kv: FullAttnCache) -> bool {
    let kv_dim = d.num_kv_heads * d.head_dim;
    &&& d.head_dim <= i64::MAX
    &&& d.num_attn_heads * (2 * d.head_dim) <= usize::MAX
    &&& kv_dim <= usize::MAX
    &&& turned(d.rotary_dim as int) <= d.head_dim
    &&& kv.k_cache@.len() == kv.v_cache@.len()
    &&& kv.len < usize::MAX
    &&& kv.len * kv_dim + kv_dim <= kv.k_cache@.len()
    &&& heads_fit(d, kv.k_cache@.len() as int, kv.len + 1)
}

/// Attention for a new token, given its projections: the cache takes its keys and values, and the
/// output after the gating comes back.
pub fn attend_token<A: Arith>(
    ws: &Weights,
    layer_idx: usize,
    q_proj: &Vec<F32>,
    k: Vec<F32>,
    v: &Vec<F32>,
    kv: &mut FullAttnCache,
    pos: usize,
    d: &AttnDims,
    style: AttnStyle,
) -> (r: Vec<F32>)
    requires
        attn_fits(*d, *old(kv)),
        q_proj@.len() == d.num_attn_heads * (2 * d.head_dim),
        k@.len() == d.num_kv_heads * d.head_dim,
        v@.len() == d.num_kv_heads * d.head_dim,
    ensures
        r@.len() == d.num_attn_heads * d.head_dim,
        final(kv).len == old(kv).len + 1,
        final(kv).k_cache@.len() == old(kv).k_cache@.len(),
        final(kv).v_cache@ == remembered(old(kv).v_cache@, old(kv).len as int, *d, v@),
        deterministic::<A>() ==> final(kv).k_cache@ == remembered(
            old(kv).k_cache@,
            old(kv).len as int,
            *d,
            keys::<A>(*ws, layer_idx as int, k@, pos as int, *d, style),
        ),
        deterministic::<A>() ==> r@ == attended::<A>(
            *ws,
            layer_idx as int,
            q_proj@,
            k@,
            v@,
            old(kv).k_cache@,
            old(kv).v_cache@,
            old(kv).len as int,
            pos as int,
            *d,
            style,
        ),
{
    let (nq, nkv, hd) = (d.num_attn_heads, d.num_kv_heads, d.head_dim);
    proof {
        assert(nq * hd <= nq * (2 * hd)) by (nonlinear_arith);
    }
    let q: Vec<F32> = split_queries(q_proj.as_slice(), nq, hd, false);
    let second: Vec<F32> = split_queries(q_proj.as_slice(), nq, hd, true);
    let qn: String = layer_name(layer_idx, ".self_attn.q_norm.weight");
    let q: Vec<F32> = norm_heads::<A>(ws, qn.as_str(), q, nq, hd, style);
    let kn: String = layer_name(layer_idx, ".self_attn.k_norm.weight");
    let k: Vec<F32> = norm_heads::<A>(ws, kn.as_str(), k, nkv, hd, style);
    let q: Vec<F32> = apply_rotary_emb::<A>(
        q.as_slice(),
        pos,
        nq,
        hd,
        d.rotary_dim,
        d.rope_theta,
    );
    let k: Vec<F32> = apply_rotary_emb::<A>(
        k.as_slice(),
        pos,
        nkv,
        hd,
        d.rotary_dim,
        d.rope_theta,
    );
    assert(kv.k_cache.len() == kv.k_cache@.len());
    assert(kv.len * (nkv * hd) >= 0) by (nonlinear_arith);
    let start: usize = kv.len * (nkv * hd);
    overwrite(&mut kv.k_cache, start, k.as_slice());
    overwrite(&mut kv.v_cache, start, v.as_slice());
    kv.len = kv.len + 1;
    let attn: Vec<F32> = attend::<A>(&q, kv, d, style);
    apply_second_queries::<A>(&attn, &second, style)
}

/// The hidden vector after attention: what the output projection gives is added to the residual.
pub open spec fn after_attention<A: Arith>(
    ws: Weights,
    layer: int,
    normed: Seq<F32>,
    residual: Seq<F32>,
    kv: Tokens,
    pos: int,
    d: AttnDims,
    style: AttnStyle,
) -> Seq<F32> {
    let kv_dim = d.num_kv_heads * d.head_dim;
    added::<A>(
        residual,
        projected::<A>(
            ws,
            in_layer(layer, ".self_attn.o_proj"@),
            attended::<A>(
                ws,
                layer,
                projected::<A>(
                    ws,
                    in_layer(layer, ".self_attn.q_proj"@),
                    normed,
                    d.num_attn_heads * (2 * d.head_dim),
                ),
                projected::<A>(ws, in_layer(layer, ".self_attn.k_proj"@), normed, kv_dim),
                projected::<A>(ws, in_layer(layer, ".self_attn.v_proj"@), normed, kv_dim),
                kv.k,
                kv.v,
                kv.len,
                pos,
                d,
                style,
            ),
            residual.len() as int,
        ),
    )
}

/// What a layer's cache holds after attention: one token more.
pub open spec fn next_tokens<A: Arith>(
    ws: Weights,
    layer: int,
    normed: Seq<F32>,
    before: Tokens,
    pos: int,
    d: AttnDims,
    style: AttnStyle,
) -> Tokens {
    let kv_dim = d.num_kv_heads * d.head_dim;
    Tokens {
        k: remembered(
            before.k,
            before.len,
            d,
            keys::<A>(
                ws,
                layer,
                projected::<A>(ws, in_layer(layer, ".self_attn.k_proj"@), normed, kv_dim),
                pos,
                d,
                style,
            ),
        ),
        v: remembered(
            before.v,
            before.len,
            d,
            projected::<A>(ws, in_layer(layer, ".self_attn.v_proj"@), normed, kv_dim),
        ),
        len: before.len + 1,
    }
}

/// The projections of a layer's attention, where they are there, have the right sizes.
pub open spec fn attn_weights_fit(ws: Weights, layer: int, hidden: int, d: AttnDims) -> bool {
    let kv_dim = d.num_kv_heads * d.head_dim;
    let q_dim = d.num_attn_heads * d.head_dim;
    &&& named_fits(
        ws,
        in_layer(layer, ".self_attn.q_proj"@),
        d.num_attn_heads * (2 * d.head_dim),
        hidden,
    )
    &&& named_fits(ws, in_layer(layer, ".self_attn.k_proj"@), kv_dim, hidden)
    &&& named_fits(ws, in_layer(layer, ".self_attn.v_proj"@), kv_dim, hidden)
    &&& named_fits(ws, in_layer(layer, ".self_attn.o_proj"@), hidden, q_dim)
}

/// Attention of a layer on a normed vector: the new hidden vector.
pub fn full_attention<A: Arith>(
    ws: &Weights,
    layer_idx: usize,
    normed: &[F32],
    residual: &[F32],
    kv: &mut FullAttnCache,
    pos: usize,
    d: &AttnDims,
    style: AttnStyle,
) -> (r: Vec<F32>)
    requires
        attn_fits(*d, *old(kv)),
        attn_weights_fit(*ws, layer_idx as int, normed@.len() as int, *d),
        normed@.len() == residual@.len(),
    ensures
        r@.len() == residual@.len(),
        final(kv).len == old(kv).len + 1,
        final(kv).k_cache@.len() == old(kv).k_cache@.len(),
        final(kv).v_cache@.len() == old(kv).v_cache@.len(),
        deterministic::<A>() ==> final(kv)@ == next_tokens::<A>(
            *ws,
            layer_idx as int,
            normed@,
            old(kv)@,
            pos as int,
            *d,
            style,
        ),
        deterministic::<A>() ==> r@ == after_attention::<A>(
            *ws,
            layer_idx as int,
            normed@,
            residual@,
            old(kv)@,
            pos as int,
            *d,
            style,
        ),
{
    let (nq, nkv, hd) = (d.num_attn_heads, d.num_kv_heads, d.head_dim);
    assert(nkv * hd >= 0 && 0 <= nq * hd && nq * hd * 2 == nq * (2 * hd)) by (nonlinear_arith);
    let qn: String = layer_name(layer_idx, ".self_attn.q_proj");
    let kn: String = layer_name(layer_idx, ".self_attn.k_proj");
    let vn: String = layer_name(layer_idx, ".self_attn.v_proj");
    let q_proj: Vec<F32> = project::<A>(ws, qn.as_str(), normed, nq * hd * 2);
    let k: Vec<F32> = project::<A>(ws, kn.as_str(), normed, nkv * hd);
    let v: Vec<F32> = project::<A>(ws, vn.as_str(), normed, nkv * hd);
    let attn: Vec<F32> = attend_token::<A>(ws, layer_idx, &q_proj, k, &v, kv, pos, d, style);
    let on: String = layer_name(layer_idx, ".self_attn.o_proj");
    let o_out: Vec<F32> = project::<A>(ws, on.as_str(), attn.as_slice(), residual.len());
    add_vec::<A>(residual, o_out.as_slice())
}

/// Norm and attention of a layer, as the server runs them.
pub fn full_attention_forward<A: Arith>(
    ws: &Weights,
    layer_idx: usize,
    hidden: &mut Vec<F32>,
    kv: &mut FullAttnCache,
    pos: usize,
    d: &AttnDims,
)
    requires
        old(hidden)@.len() <= i64::MAX,
        attn_fits(*d, *old(kv)),
        attn_weights_fit(*ws, layer_idx as int, old(hidden)@.len() as int, *d),
        norm_fits(
            *ws,
            in_layer(layer_idx as int, ".input_layernorm.weight"@),
            old(hidden)@.len() as int,
        ),
    ensures
        final(hidden)@.len() == old(hidden)@.len(),
        final(kv).len == old(kv).len + 1,
        final(kv).k_cache@.len() == old(kv).k_cache@.len(),
        final(kv).v_cache@.len() == old(kv).v_cache@.len(),
        deterministic::<A>() ==> {
            let normed = normed_by::<A>(
                *ws,
                in_layer(layer_idx as int, ".input_layernorm.weight"@),
                old(hidden)@,
                SumOrder::LeftToRight,
            );
            &&& final(kv)@ == next_tokens::<A>(
                *ws,
                layer_idx as int,
                normed,
                old(kv)@,
                pos as int,
                *d,
                AttnStyle::Server,
            )
            &&& final(hidden)@ == after_attention::<A>(
                *ws,
                layer_idx as int,
                normed,
                old(hidden)@,
                old(kv)@,
                pos as int,
                *d,
                AttnStyle::Server,
            )
        },
{
    let name: String = layer_name(layer_idx, ".input_layernorm.weight");
    let normed: Vec<F32> = norm_by::<A>(
        ws,
        name.as_str(),
        hidden.as_slice(),
        SumOrder::LeftToRight,
    );
    let out: Vec<F32> = full_attention::<A>(
        ws,
        layer_idx,
        normed.as_slice(),
        hidden.as_slice(),
        kv,
        pos,
        d,
        AttnStyle::Server,
    );
    *hidden = out;
}

proof fn lemma_kv_head(h: int, nq: int, nkv: int)
    requires
        0 <= h < nq,
        0 < nkv <= nq,
        nq % nkv == 0,
    ensures
        0 <= kv_head(h, nq, nkv) < nkv,
{
    let per = nq / nkv;
    let kvh = kv_head(h, nq, nkv);
    vstd::arithmetic::div_mod::lemma_fundamental_div_mod(nq, nkv);
    vstd::arithmetic::div_mod::lemma_div_non_zero(nq, nkv);
    vstd::arithmetic::div_mod::lemma_div_pos_is_pos(h, per);
    vstd::arithmetic::div_mod::lemma_fundamental_div_mod(h, per);
    assert(kvh < nkv) by (nonlinear_arith)
        requires
            nq == nkv * per,
            h < nq,
            h == per * kvh + h % per,
            h % per >= 0,
            per > 0,
    ;
}

/// A cache with room for `max_seq` tokens takes one more token as long as it holds fewer and the
/// heads fit.
pub proof fn law_cache_has_room(d: AttnDims, kv: FullAttnCache, max_seq: int)
    requires
        d.head_dim <= i64::MAX,
        d.num_attn_heads * (2 * d.head_dim) <= usize::MAX,
        d.num_kv_heads * d.head_dim <= usize::MAX,
        turned(d.rotary_dim as int) <= d.head_dim,
        kv.k_cache@.len() == max_seq * (d.num_kv_heads * d.head_dim),
        kv.v_cache@.len() == kv.k_cache@.len(),
        kv.len < max_seq,
        kv.len < usize::MAX,
        heads_fit(d, max_seq * (d.num_kv_heads * d.head_dim), kv.len + 1),
    ensures
        attn_fits(d, kv),
{
    let kv_dim = d.num_kv_heads * d.head_dim;
    lemma_cell(kv.len as int, max_seq, kv_dim);
}

/// Every head looks at keys and values of one token: what it reads for a token lies within what
/// that token brought.
pub open spec fn heads_within(d: AttnDims) -> bool {
    heads_fit(d, d.num_kv_heads * d.head_dim, 1)
}

/// Where the key heads divide the query heads, every head looks at keys and values of one token.
pub proof fn law_even_heads(d: AttnDims)
    requires
        0 < d.num_kv_heads <= d.num_attn_heads,
        d.num_attn_heads as int % d.num_kv_heads as int == 0,
    ensures
        heads_within(d),
{
    let (nq, nkv) = (d.num_attn_heads as int, d.num_kv_heads as int);
    assert forall|h: int| 0 <= h < nq implies 0 * (d.num_kv_heads * d.head_dim)
        + #[trigger] kv_head(h, nq, nkv) * d.head_dim + d.head_dim <= d.num_kv_heads
        * d.head_dim by {
        lemma_kv_head(h, nq, nkv);
        lemma_cell(kv_head(h, nq, nkv), nkv, d.head_dim as int);
    }
}

/// Heads that look at one token each fit as long as there is room for the tokens.
pub proof fn law_heads_fit(d: AttnDims, max_seq: int, n: int)
    requires
        heads_within(d),
        0 <= n <= max_seq,
    ensures
        heads_fit(d, max_seq * (d.num_kv_heads * d.head_dim), n),
{
    let kv_dim = d.num_kv_heads * d.head_dim;
    let (nq, nkv) = (d.num_attn_heads as int, d.num_kv_heads as int);
    if n > 0 {
        lemma_cell(n - 1, max_seq, kv_dim);
        assert forall|h: int| 0 <= h < nq implies (n - 1) * kv_dim + #[trigger] kv_head(h, nq, nkv)
            * d.head_dim + d.head_dim <= max_seq * kv_dim by {
            assert((1 - 1) * kv_dim + kv_head(h, nq, nkv) * d.head_dim + d.head_dim <= kv_dim);
        }
    }
}

/// Heads that fit for some tokens fit for fewer.
pub proof fn lemma_fewer_heads_fit(d: AttnDims, len: int, n: int, fewer: int)
    requires
        heads_fit(d, len, n),
        fewer <= n,
    ensures
        heads_fit(d, len, fewer),
{
    let kv_dim = d.num_kv_heads * d.head_dim;
    let (nq, nkv) = (d.num_attn_heads as int, d.num_kv_heads as int);
    if fewer > 0 {
        assert((fewer - 1) * kv_dim <= (n - 1) * kv_dim) by (nonlinear_arith)
            requires
                fewer <= n,
                kv_dim >= 0,
        ;
        assert forall|h: int| 0 <= h < nq implies (fewer - 1) * kv_dim
            + #[trigger] kv_head(h, nq, nkv) * d.head_dim + d.head_dim <= len by {
            assert((n - 1) * kv_dim + kv_head(h, nq, nkv) * d.head_dim + d.head_dim <= len);
        }
    }
}

/// Attention writes only the place of the new token: what it remembers of earlier tokens stays.
pub proof fn law_earlier_tokens_stay(cache: Seq<F32>, len: int, d: AttnDims, x: Seq<F32>, i: int)
    requires
        0 <= i < len * (d.num_kv_heads * d.head_dim) <= cache.len(),
    ensures
        remembered(cache, len, d, x)[i] == cache[i],
{
}

proof fn lemma_same_weighted<A: Arith>(
    w: Seq<F32>,
    a: Seq<F32>,
    b: Seq<F32>,
    kv_dim: int,
    off: int,
    i: int,
    n: int,
)
    requires
        0 <= n,
        0 <= kv_dim,
        0 <= off + i < kv_dim,
        n * kv_dim <= a.len(),
        n * kv_dim <= b.len(),
        forall|j: int| 0 <= j < n * kv_dim ==> #[trigger] a[j] == b[j],
    ensures
        weighted::<A>(w, a, kv_dim, off, i, n) == weighted::<A>(w, b, kv_dim, off, i, n),
    decreases n,
{
    if n > 0 {
        lemma_cell(n - 1, n, kv_dim);
        lemma_same_weighted::<A>(w, a, b, kv_dim, off, i, n - 1);
        assert(a[(n - 1) * kv_dim + off + i] == b[(n - 1) * kv_dim + off + i]);
    }
}

proof fn lemma_kv_head_from_zero(h: int, nq: int, nkv: int)
    requires
        0 <= h < nq,
        0 < nkv <= nq,
    ensures
        0 <= kv_head(h, nq, nkv),
{
    vstd::arithmetic::div_mod::lemma_div_non_zero(nq, nkv);
    vstd::arithmetic::div_mod::lemma_div_pos_is_pos(h, nq / nkv);
}

proof fn lemma_same_head<A: Arith>(
    q: Seq<F32>,
    ka: Seq<F32>,
    va: Seq<F32>,
    kb: Seq<F32>,
    vb: Seq<F32>,
    d: AttnDims,
    n: int,
    h: int,
)
    requires
        0 <= h < d.num_attn_heads,
        0 <= n,
        heads_within(d),
        n * (d.num_kv_heads * d.head_dim) <= ka.len(),
        ka.len() == kb.len() == va.len() == vb.len(),
        forall|j: int|
            0 <= j < n * (d.num_kv_heads * d.head_dim) ==> #[trigger] ka[j] == kb[j],
        forall|j: int|
            0 <= j < n * (d.num_kv_heads * d.head_dim) ==> #[trigger] va[j] == vb[j],
    ensures
        head_out::<A>(q, ka, va, d, n, h, AttnStyle::Reference) == head_out::<A>(
            q,
            kb,
            vb,
            d,
            n,
            h,
            AttnStyle::Reference,
        ),
{
    let kv_dim = d.num_kv_heads * d.head_dim;
    let hd = d.head_dim as int;
    let (nq, nkv) = (d.num_attn_heads as int, d.num_kv_heads as int);
    let kvh = kv_head(h, nq, nkv);
    let off = kvh * hd;
    assert((1 - 1) * kv_dim + kvh * hd + hd <= kv_dim);
    lemma_kv_head_from_zero(h, nq, nkv);
    assert(0 <= off) by (nonlinear_arith)
        requires
            off == kvh * hd,
            0 <= kvh,
            0 <= hd,
    ;
    let qh = head_part(q, h * hd, hd, AttnStyle::Reference);
    let sa = scores_of::<A>(qh, ka, kv_dim, off, hd, n, AttnStyle::Reference);
    let sb = scores_of::<A>(qh, kb, kv_dim, off, hd, n, AttnStyle::Reference);
    assert forall|p: int| 0 <= p < n implies sa[p] == sb[p] by {
        lemma_cell(p, n, kv_dim);
        let at = p * kv_dim + off;
        assert(ka.subrange(at, at + hd) =~= kb.subrange(at, at + hd));
    }
    assert(sa =~= sb);
    let (a, b) = (
        head_out::<A>(q, ka, va, d, n, h, AttnStyle::Reference),
        head_out::<A>(q, kb, vb, d, n, h, AttnStyle::Reference),
    );
    assert forall|i: int| 0 <= i < hd implies a[i] == b[i] by {
        let w = attn_weights::<A>(sa, AttnStyle::Reference);
        lemma_same_weighted::<A>(w, va, vb, kv_dim, off, i, n);
    }
    assert(a =~= b);
}

proof fn lemma_same_heads<A: Arith>(
    q: Seq<F32>,
    ka: Seq<F32>,
    va: Seq<F32>,
    kb: Seq<F32>,
    vb: Seq<F32>,
    d: AttnDims,
    n: int,
    h: int,
)
    requires
        0 <= h <= d.num_attn_heads,
        0 <= n,
        heads_within(d),
        n * (d.num_kv_heads * d.head_dim) <= ka.len(),
        ka.len() == kb.len() == va.len() == vb.len(),
        forall|j: int|
            0 <= j < n * (d.num_kv_heads * d.head_dim) ==> #[trigger] ka[j] == kb[j],
        forall|j: int|
            0 <= j < n * (d.num_kv_heads * d.head_dim) ==> #[trigger] va[j] == vb[j],
    ensures
        heads_out::<A>(q, ka, va, d, n, h, AttnStyle::Reference) == heads_out::<A>(
            q,
            kb,
            vb,
            d,
            n,
            h,
            AttnStyle::Reference,
        ),
    decreases h,
{
    if h > 0 {
        lemma_same_heads::<A>(q, ka, va, kb, vb, d, n, h - 1);
        lemma_same_head::<A>(q, ka, va, kb, vb, d, n, h - 1);
    }
}

/// Where every head looks at one token, attention within heads depends on the cache only through
/// the tokens it holds. So a cache that was reset answers as a new one does, whatever its room held
/// before.
pub proof fn law_attention_reads_tokens_only<A: Arith>(
    ws: Weights,
    layer: int,
    q_proj: Seq<F32>,
    k: Seq<F32>,
    v: Seq<F32>,
    ka: Seq<F32>,
    va: Seq<F32>,
    kb: Seq<F32>,
    vb: Seq<F32>,
    len: int,
    pos: int,
    d: AttnDims,
)
    requires
        0 <= len,
        heads_within(d),
        k.len() == d.num_kv_heads * d.head_dim,
        v.len() == d.num_kv_heads * d.head_dim,
        (len + 1) * (d.num_kv_heads * d.head_dim) <= ka.len(),
        ka.len() == kb.len() == va.len() == vb.len(),
        forall|j: int|
            0 <= j < len * (d.num_kv_heads * d.head_dim) ==> #[trigger] ka[j] == kb[j],
        forall|j: int|
            0 <= j < len * (d.num_kv_heads * d.head_dim) ==> #[trigger] va[j] == vb[j],
    ensures
        attended::<A>(ws, layer, q_proj, k, v, ka, va, len, pos, d, AttnStyle::Reference)
            == attended::<A>(ws, layer, q_proj, k, v, kb, vb, len, pos, d, AttnStyle::Reference),
{
    let kv_dim = d.num_kv_heads * d.head_dim;
    let x = keys::<A>(ws, layer, k, pos, d, AttnStyle::Reference);
    lemma_keys_len::<A>(ws, layer, k, pos, d);
    lemma_cell(len, len + 1, kv_dim);
    let (ra, rb) = (remembered(ka, len, d, x), remembered(kb, len, d, x));
    let (sa, sb) = (remembered(va, len, d, v), remembered(vb, len, d, v));
    assert forall|j: int| 0 <= j < (len + 1) * kv_dim implies #[trigger] ra[j] == rb[j] by {
        if j < len * kv_dim {
            assert(ka[j] == kb[j]);
        }
    }
    assert forall|j: int| 0 <= j < (len + 1) * kv_dim implies #[trigger] sa[j] == sb[j] by {
        if j < len * kv_dim {
            assert(va[j] == vb[j]);
        }
    }
    lemma_same_heads::<A>(
        queries::<A>(ws, layer, q_proj, pos, d, AttnStyle::Reference),
        ra,
        sa,
        rb,
        sb,
        d,
        len + 1,
        d.num_attn_heads as int,
    );
}

proof fn lemma_normed_len<A: Arith>(x: Seq<F32>, w: Seq<u16>, head_dim: int, n: int, style: AttnStyle)
    ensures
        heads_normed::<A>(x, w, head_dim, n, style).len() == x.len(),
    decreases n,
{
    if n > 0 {
        lemma_normed_len::<A>(x, w, head_dim, n - 1, style);
    }
}

pub proof fn lemma_keys_len<A: Arith>(ws: Weights, layer: int, k: Seq<F32>, pos: int, d: AttnDims)
    ensures
        keys::<A>(ws, layer, k, pos, d, AttnStyle::Reference).len() == k.len(),
{
    match u16s_of(ws, in_layer(layer, ".self_attn.k_norm.weight"@)) {
        Some(w) => {
            lemma_normed_len::<A>(
                k,
                w,
                d.head_dim as int,
                d.num_kv_heads as int,
                AttnStyle::Reference,
            );
        },
        None => {},
    }
}

} // verus!
