//! Whole runs of the reference engine: a list of tokens, each through all layers.

use crate::attention::{
    heads_within, law_attention_reads_tokens_only, lemma_fewer_heads_fit, lemma_keys_len,
};
use crate::cache::{Cache, Memory, Tokens, fresh_layer, reset_kv, reset_lin};
use crate::config::{ModelConfig, full_attention_at};
use crate::embed::{embed_fits, embed_lookup, embedded, final_norm_and_lm_head, final_normed};
use crate::error::MoEError;
use crate::float::{Arith, F32, deterministic};
use crate::math::{SumOrder, zero_seq, zeros};
use crate::model::{
    attn_dims_of, lin_dims_of, reference_hidden, reference_layer, reference_memory, reference_mid,
};
use crate::moe::whole_reads;
use crate::ready::{
    cache_has_room, head_fits, law_fresh_cache_has_room, law_reference_layer_can_run, layer_fits,
    sizes_fit, tokens_fit,
};
use crate::weights::{Weights, in_layer, normed_by, projected};
use vstd::prelude::*;

verus! {

/// A hidden vector and what the layers remember, after the first `n` layers.
pub open spec fn layers_on<A: Arith>(
    ws: Weights,
    c: ModelConfig,
    experts: Seq<Vec<Option<Vec<u8>>>>,
    hidden: Seq<F32>,
    m: Memory,
    n: int,
) -> (Seq<F32>, Memory)
    decreases n,
{
    if n <= 0 {
        (hidden, m)
    } else {
        let (h, k) = layers_on::<A>(ws, c, experts, hidden, m, n - 1);
        (
            reference_hidden::<A>(ws, n - 1, h, k, experts[n - 1]@, c),
            reference_memory::<A>(ws, n - 1, h, k, c),
        )
    }
}

/// A token on its way: its embedding through the first `n` layers.
pub open spec fn token_through<A: Arith>(
    ws: Weights,
    c: ModelConfig,
    experts: Seq<Vec<Option<Vec<u8>>>>,
    token: int,
    m: Memory,
    n: int,
) -> (Seq<F32>, Memory) {
    layers_on::<A>(
        ws,
        c,
        experts,
        embedded::<A>(ws, token, zero_seq(c.hidden_dim as int)),
        m,
        n,
    )
}

/// The logits of a token, and what the layers remember after it: the position is the next one.
#[verifier::opaque]
pub open spec fn token_on<A: Arith>(
    ws: Weights,
    c: ModelConfig,
    experts: Seq<Vec<Option<Vec<u8>>>>,
    token: int,
    m: Memory,
) -> (Seq<F32>, Memory) {
    let (h, k) = token_through::<A>(ws, c, experts, token, m, c.num_layers as int);
    (
        projected::<A>(ws, "lm_head"@, final_normed::<A>(ws, h), c.vocab_size as int),
        Memory { pos: k.pos + 1, ..k },
    )
}

/// The logits of tokens, one after the other, and what the layers remember after them.
pub open spec fn tokens_on<A: Arith>(
    ws: Weights,
    c: ModelConfig,
    experts: Seq<Vec<Option<Vec<u8>>>>,
    ids: Seq<i64>,
    m: Memory,
) -> (Seq<F32>, Memory)
    decreases ids.len(),
{
    if ids.len() == 0 {
        (Seq::empty(), m)
    } else {
        let (l, k) = tokens_on::<A>(ws, c, experts, ids.drop_last(), m);
        let (x, j) = token_on::<A>(ws, c, experts, ids.last() as int, k);
        (l + x, j)
    }
}

/// A layer has the room that the model asks for, and takes `n` more tokens.
pub open spec fn layer_takes(c: ModelConfig, m: Memory, l: int, n: int) -> bool {
    if full_attention_at(l) {
        m.kv[l] matches Some(t) && {
            &&& t.k.len() == 4096 * (c.num_kv_heads * c.head_dim)
            &&& t.v.len() == t.k.len()
            &&& 0 <= t.len
            &&& t.len + n <= 4096
            &&& n > 0 ==> tokens_fit(c, t.len + n)
        }
    } else {
        let d = lin_dims_of(c);
        m.lin[l] matches Some(s) && {
            &&& s.conv.len() == 3 * d.qkv_dim
            &&& s.ssm.len() == d.num_v_heads * (d.value_dim() * d.key_dim())
        }
    }
}

/// The caches of a model take `n` more tokens.
pub open spec fn takes(c: ModelConfig, m: Memory, n: int) -> bool {
    &&& m.kv.len() == c.num_layers
    &&& m.lin.len() == c.num_layers
    &&& m.pos + n <= usize::MAX
    &&& forall|l: int| 0 <= l < c.num_layers ==> #[trigger] layer_takes(c, m, l, n)
}

/// The weights and the experts of a model fit its sizes.
pub open spec fn model_fits(
    ws: Weights,
    c: ModelConfig,
    experts: Seq<Vec<Option<Vec<u8>>>>,
) -> bool {
    &&& sizes_fit(c)
    &&& head_fits(ws, c)
    &&& experts.len() == c.num_layers
    &&& forall|l: int| 0 <= l < c.num_layers ==> #[trigger] layer_fits(ws, l, c)
    &&& forall|l: int|
        0 <= l < c.num_layers ==> whole_reads(
            (#[trigger] experts[l])@,
            c.expert_size_4bit as int,
        )
}

/// The question before layer `l` of token `t` is answered with yes. There is one before every
/// fourth layer; one without an answer counts as answered with no.
pub open spec fn stop_at(answers: Seq<Vec<bool>>, t: int, l: int) -> bool {
    l % 4 == 0 && 0 <= t < answers.len() && 0 <= l / 4 < answers[t]@.len() && answers[t]@[l / 4]
}

/// The first question that is answered with yes is the one before layer `l` of token `t`.
pub open spec fn first_stop(
    answers: Seq<Vec<bool>>,
    tokens: int,
    layers: int,
    t: int,
    l: int,
) -> bool {
    &&& 0 <= t < tokens
    &&& 0 <= l < layers
    &&& stop_at(answers, t, l)
    &&& forall|i: int, j: int|
        0 <= j < layers && (0 <= i < t || i == t && j < l) ==> !#[trigger] stop_at(answers, i, j)
}

fn stops(answers: &Vec<Vec<bool>>, t: usize, l: usize) -> (r: bool)
    ensures
        r == stop_at(answers@, t as int, l as int),
{
    if l % 4 == 0 && t < answers.len() {
        let a: &Vec<bool> = &answers[t];
        l / 4 < a.len() && a[l / 4]
    } else {
        false
    }
}

/// Runs a token through the layers: its logits, or nothing where the run is stopped.
fn forward_token<A: Arith>(
    ws: &Weights,
    token: usize,
    t: usize,
    cache: &mut Cache,
    experts: &Vec<Vec<Option<Vec<u8>>>>,
    answers: &Vec<Vec<bool>>,
    c: &ModelConfig,
) -> (r: Option<Vec<F32>>)
    requires
        model_fits(*ws, *c, experts@),
        embed_fits(*ws, token as int, c.hidden_dim as int),
        takes(*c, old(cache)@, 1),
    ensures
        match r {
            Some(x) => {
                &&& forall|l: int|
                    0 <= l < c.num_layers ==> !#[trigger] stop_at(answers@, t as int, l)
                &&& x@.len() == c.vocab_size
                &&& final(cache).pos == old(cache).pos + 1
                &&& forall|n: int|
                    takes(*c, old(cache)@, n + 1) ==> #[trigger] takes(*c, final(cache)@, n)
                &&& deterministic::<A>() ==> (x@, final(cache)@) == token_on::<A>(
                    *ws,
                    *c,
                    experts@,
                    token as int,
                    old(cache)@,
                )
            },
            None => {
                &&& final(cache).pos == old(cache).pos
                &&& exists|l: int|
                    {
                        &&& 0 <= l < c.num_layers
                        &&& #[trigger] stop_at(answers@, t as int, l)
                        &&& forall|j: int|
                            0 <= j < l ==> !#[trigger] stop_at(answers@, t as int, j)
                        &&& deterministic::<A>() ==> final(cache)@ == token_through::<A>(
                            *ws,
                            *c,
                            experts@,
                            token as int,
                            old(cache)@,
                            l,
                        ).1
                    }
            },
        },
{
    let ghost m0 = cache@;
    let mut hidden: Vec<F32> = zeros(c.hidden_dim);
    embed_lookup::<A>(ws, token, &mut hidden);
    let ghost h0 = embedded::<A>(*ws, token as int, zero_seq(c.hidden_dim as int));
    for l in 0..c.num_layers
        invariant
            model_fits(*ws, *c, experts@),
            takes(*c, m0, 1),
            m0 == old(cache)@,
            h0 == embedded::<A>(*ws, token as int, zero_seq(c.hidden_dim as int)),
            hidden@.len() == c.hidden_dim,
            cache.pos == m0.pos,
            cache@.kv.len() == c.num_layers,
            cache@.lin.len() == c.num_layers,
            forall|k: int, n: int|
                0 <= k < c.num_layers && #[trigger] layer_takes(*c, m0, k, n) ==> layer_takes(
                    *c,
                    cache@,
                    k,
                    if k < l {
                        n - 1
                    } else {
                        n
                    },
                ),
            forall|j: int| 0 <= j < l ==> !#[trigger] stop_at(answers@, t as int, j),
            deterministic::<A>() ==> (hidden@, cache@) == layers_on::<A>(
                *ws,
                *c,
                experts@,
                h0,
                m0,
                l as int,
            ),
    {
        if stops(answers, t, l) {
            return None;
        }
        let ghost before = *cache;
        proof {
            assert(layer_takes(*c, m0, l as int, 1));
            assert(layer_takes(*c, cache@, l as int, 1));
            lemma_layer_can_run(*ws, *c, *cache, experts@, l as int);
        }
        reference_layer::<A>(ws, l, &mut hidden, cache, &experts[l], c);
        proof {
            assert forall|k: int, n: int|
                0 <= k < c.num_layers && #[trigger] layer_takes(*c, m0, k, n) implies layer_takes(
                *c,
                cache@,
                k,
                if k < l + 1 {
                    n - 1
                } else {
                    n
                },
            ) by {
                assert(layer_takes(
                    *c,
                    before@,
                    k,
                    if k < l {
                        n - 1
                    } else {
                        n
                    },
                ));
                assert(cache.kv@[k] == before.kv@[k] || k == l);
                assert(cache.lin@[k] == before.lin@[k] || k == l);
            }
        }
    }
    let ghost m1 = cache@;
    cache.advance();
    proof {
        reveal(token_on);
        assert(cache@.kv =~= m1.kv && cache@.lin =~= m1.lin);
        assert forall|n: int| takes(*c, m0, n + 1) implies #[trigger] takes(*c, cache@, n) by {
            assert forall|k: int| 0 <= k < c.num_layers implies #[trigger] layer_takes(
                *c,
                cache@,
                k,
                n,
            ) by {
                assert(layer_takes(*c, m0, k, n + 1));
                assert(layer_takes(*c, m1, k, n));
            }
        }
    }
    let x: Vec<F32> = final_norm_and_lm_head::<A>(ws, &mut hidden, c.vocab_size);
    Some(x)
}

/// The tokens are within the embedding matrix.
pub open spec fn ids_fit(ws: Weights, c: ModelConfig, ids: Seq<i64>) -> bool {
    forall|i: int|
        0 <= i < ids.len() ==> 0 <= #[trigger] ids[i] <= usize::MAX && embed_fits(
            ws,
            ids[i] as int,
            c.hidden_dim as int,
        )
}

/// Runs tokens through the layers, given all experts and the answers to the questions whether to
/// stop: the logits of all tokens, or an error where the run is stopped. A run that is stopped
/// leaves the position at the token it was at, and the layers before the question have already
/// taken that token in.
pub fn forward<A: Arith>(
    ws: &Weights,
    input_ids: &[i64],
    cache: &mut Cache,
    experts: &Vec<Vec<Option<Vec<u8>>>>,
    answers: &Vec<Vec<bool>>,
    c: &ModelConfig,
) -> (r: Result<Vec<F32>, MoEError>)
    requires
        model_fits(*ws, *c, experts@),
        ids_fit(*ws, *c, input_ids@),
        takes(*c, old(cache)@, input_ids@.len() as int),
    ensures
        input_ids@.len() == 0 ==> *final(cache) == *old(cache),
        match r {
            Ok(logits) => {
                &&& forall|t: int, l: int|
                    0 <= t < input_ids@.len() && 0 <= l < c.num_layers ==> !#[trigger] stop_at(
                        answers@,
                        t,
                        l,
                    )
                &&& logits@.len() == input_ids@.len() * c.vocab_size
                &&& final(cache).pos == old(cache).pos + input_ids@.len()
                &&& forall|n: int|
                    takes(*c, old(cache)@, input_ids@.len() + n) ==> #[trigger] takes(
                        *c,
                        final(cache)@,
                        n,
                    )
                &&& deterministic::<A>() ==> (logits@, final(cache)@) == tokens_on::<A>(
                    *ws,
                    *c,
                    experts@,
                    input_ids@,
                    old(cache)@,
                )
            },
            Err(e) => {
                &&& e matches MoEError::Metal(text) && text@ == "interrupted"@
                &&& exists|t: int, l: int|
                    {
                        &&& #[trigger] first_stop(
                            answers@,
                            input_ids@.len() as int,
                            c.num_layers as int,
                            t,
                            l,
                        )
                        &&& final(cache).pos == old(cache).pos + t
                        &&& deterministic::<A>() ==> final(cache)@ == token_through::<A>(
                            *ws,
                            *c,
                            experts@,
                            input_ids@[t] as int,
                            tokens_on::<A>(*ws, *c, experts@, input_ids@.take(t), old(cache)@).1,
                            l,
                        ).1
                    }
            },
        },
{
    let ghost m0 = cache@;
    let mut logits: Vec<F32> = Vec::new();
    assert(input_ids@.take(0) =~= Seq::<i64>::empty());
    assert(0 * c.vocab_size == 0);
    for t in 0..input_ids.len()
        invariant
            model_fits(*ws, *c, experts@),
            ids_fit(*ws, *c, input_ids@),
            takes(*c, m0, input_ids@.len() as int),
            m0 == old(cache)@,
            t == 0 ==> *cache == *old(cache),
            cache.pos == m0.pos + t,
            logits@.len() == t * c.vocab_size,
            forall|n: int| takes(*c, m0, t + n) ==> #[trigger] takes(*c, cache@, n),
            forall|i: int, l: int|
                0 <= i < t && 0 <= l < c.num_layers ==> !#[trigger] stop_at(answers@, i, l),
            deterministic::<A>() ==> (logits@, cache@) == tokens_on::<A>(
                *ws,
                *c,
                experts@,
                input_ids@.take(t as int),
                m0,
            ),
    {
        let ghost m1 = cache@;
        proof {
            lemma_fewer(*c, m0, input_ids@.len() as int, t + 1);
            assert(takes(*c, cache@, 1));
            assert(ids_fit(*ws, *c, input_ids@));
            assert(0 <= input_ids@[t as int]);
        }
        match forward_token::<A>(ws, input_ids[t] as usize, t, cache, experts, answers, c) {
            None => {
                proof {
                    let l = choose|l: int|
                        {
                            &&& 0 <= l < c.num_layers
                            &&& #[trigger] stop_at(answers@, t as int, l)
                            &&& forall|j: int|
                                0 <= j < l ==> !#[trigger] stop_at(answers@, t as int, j)
                            &&& deterministic::<A>() ==> cache@ == token_through::<A>(
                                *ws,
                                *c,
                                experts@,
                                input_ids@[t as int] as int,
                                m1,
                                l,
                            ).1
                        };
                    assert(first_stop(
                        answers@,
                        input_ids@.len() as int,
                        c.num_layers as int,
                        t as int,
                        l,
                    ));
                }
                return Err(MoEError::Metal("interrupted".to_owned()));
            },
            Some(x) => {
                let ghost l0 = logits@;
                append(&mut logits, &x);
                proof {
                    assert((t + 1) * c.vocab_size == t * c.vocab_size + c.vocab_size)
                        by (nonlinear_arith);
                    assert forall|n: int| takes(*c, m0, t + 1 + n) implies #[trigger] takes(
                        *c,
                        cache@,
                        n,
                    ) by {
                        assert(takes(*c, m0, t + (n + 1)));
                        assert(takes(*c, m1, n + 1));
                    }
                    let now = input_ids@.take(t + 1);
                    assert(now.drop_last() =~= input_ids@.take(t as int));
                }
            },
        }
    }
    assert(input_ids@.take(input_ids@.len() as int) =~= input_ids@);
    Ok(logits)
}

fn append(out: &mut Vec<F32>, x: &Vec<F32>)
    ensures
        final(out)@ == old(out)@ + x@,
{
    for i in 0..x.len()
        invariant
            out@ == old(out)@ + x@.take(i as int),
    {
        out.push(x[i]);
        assert(x@.take(i + 1) =~= x@.take(i as int).push(x@[i as int]));
    }
    assert(x@.take(x@.len() as int) =~= x@);
}

proof fn lemma_fewer(c: ModelConfig, m: Memory, n: int, fewer: int)
    requires
        takes(c, m, n),
        fewer <= n,
    ensures
        takes(c, m, fewer),
{
    assert forall|l: int| 0 <= l < c.num_layers implies #[trigger] layer_takes(c, m, l, fewer) by {
        assert(layer_takes(c, m, l, n));
        if full_attention_at(l) && fewer > 0 {
            let (room, t) = (4096 * (c.num_kv_heads * c.head_dim), m.kv[l]->0);
            lemma_fewer_heads_fit(attn_dims_of(c), room, t.len + n, t.len + fewer);
        }
    }
}

/// Tokens can be run in one go or in pieces: logits and what the layers remember are the same.
pub proof fn law_pieces<A: Arith>(
    ws: Weights,
    c: ModelConfig,
    experts: Seq<Vec<Option<Vec<u8>>>>,
    first: Seq<i64>,
    second: Seq<i64>,
    m: Memory,
)
    ensures
        ({
            let (x, k) = tokens_on::<A>(ws, c, experts, first, m);
            let (y, j) = tokens_on::<A>(ws, c, experts, second, k);
            tokens_on::<A>(ws, c, experts, first + second, m) == (x + y, j)
        }),
    decreases second.len(),
{
    let (x, k) = tokens_on::<A>(ws, c, experts, first, m);
    let (y, j) = tokens_on::<A>(ws, c, experts, second, k);
    if second.len() == 0 {
        assert(first + second =~= first);
        assert(x + y =~= x);
    } else {
        let all = first + second;
        law_pieces::<A>(ws, c, experts, first, second.drop_last(), m);
        assert(all.drop_last() =~= first + second.drop_last());
        let (y0, j0) = tokens_on::<A>(ws, c, experts, second.drop_last(), k);
        let (z, _) = token_on::<A>(ws, c, experts, second.last() as int, j0);
        assert((x + y0) + z =~= x + (y0 + z));
    }
}

/// Two caches of a layer hold the same tokens, whatever their room holds behind them, and take `n`
/// more.
pub open spec fn same_tokens(
    c: ModelConfig,
    a: Option<Tokens>,
    b: Option<Tokens>,
    n: int,
) -> bool {
    let kv_dim = c.num_kv_heads * c.head_dim;
    match (a, b) {
        (Some(x), Some(y)) => {
            &&& 0 <= x.len == y.len
            &&& x.len + n <= 4096
            &&& x.k.len() == x.v.len() == y.k.len() == y.v.len() == 4096 * kv_dim
            &&& forall|j: int| 0 <= j < x.len * kv_dim ==> #[trigger] x.k[j] == y.k[j]
            &&& forall|j: int| 0 <= j < x.len * kv_dim ==> #[trigger] x.v[j] == y.v[j]
        },
        _ => false,
    }
}

/// Two memories are at the same position and hold the same tokens and the same linear states, and
/// take `n` more tokens, or one less in the first `l` layers.
pub open spec fn alike(c: ModelConfig, a: Memory, b: Memory, n: int, l: int) -> bool {
    &&& a.pos == b.pos
    &&& a.kv.len() == b.kv.len() == c.num_layers
    &&& a.lin.len() == b.lin.len() == c.num_layers
    &&& forall|k: int|
        #![trigger a.lin[k]]
        #![trigger b.lin[k]]
        0 <= k < c.num_layers && !full_attention_at(k) ==> a.lin[k] == b.lin[k]
    &&& forall|k: int|
        #![trigger a.kv[k]]
        #![trigger b.kv[k]]
        0 <= k < c.num_layers && full_attention_at(k) ==> same_tokens(
            c,
            a.kv[k],
            b.kv[k],
            if k < l {
                n - 1
            } else {
                n
            },
        )
}

proof fn lemma_alike_attention<A: Arith>(
    ws: Weights,
    c: ModelConfig,
    layer: int,
    hidden: Seq<F32>,
    a: Memory,
    b: Memory,
    n: int,
)
    requires
        sizes_fit(c),
        heads_within(attn_dims_of(c)),
        0 <= layer < c.num_layers,
        full_attention_at(layer),
        1 <= n,
        alike(c, a, b, n, layer),
    ensures
        reference_mid::<A>(ws, layer, hidden, a, c) == reference_mid::<A>(ws, layer, hidden, b, c),
        alike(
            c,
            reference_memory::<A>(ws, layer, hidden, a, c),
            reference_memory::<A>(ws, layer, hidden, b, c),
            n,
            layer + 1,
        ),
{
    let d = attn_dims_of(c);
    let kv_dim = c.num_kv_heads * c.head_dim;
    let normed = normed_by::<A>(
        ws,
        in_layer(layer, ".input_layernorm.weight"@),
        hidden,
        SumOrder::Supplied,
    );
    let (x, y) = (a.kv[layer]->0, b.kv[layer]->0);
    assert(same_tokens(c, a.kv[layer], b.kv[layer], n));
    assert(0 <= kv_dim) by (nonlinear_arith)
        requires
            kv_dim == c.num_kv_heads * c.head_dim,
    ;
    assert((x.len + 1) * kv_dim <= 4096 * kv_dim) by (nonlinear_arith)
        requires
            x.len + 1 <= 4096,
            0 <= kv_dim,
    ;
    assert((x.len + 1) * kv_dim == x.len * kv_dim + kv_dim) by (nonlinear_arith);
    let q = projected::<A>(
        ws,
        in_layer(layer, ".self_attn.q_proj"@),
        normed,
        c.num_attn_heads * (2 * c.head_dim),
    );
    let k = projected::<A>(ws, in_layer(layer, ".self_attn.k_proj"@), normed, kv_dim);
    let v = projected::<A>(ws, in_layer(layer, ".self_attn.v_proj"@), normed, kv_dim);
    assert(k.len() == kv_dim && v.len() == kv_dim);
    law_attention_reads_tokens_only::<A>(
        ws,
        layer,
        q,
        k,
        v,
        x.k,
        x.v,
        y.k,
        y.v,
        x.len,
        a.pos,
        d,
    );
    let (a1, b1) = (
        reference_memory::<A>(ws, layer, hidden, a, c),
        reference_memory::<A>(ws, layer, hidden, b, c),
    );
    lemma_keys_len::<A>(ws, layer, k, a.pos, d);
    let (x1, y1) = (a1.kv[layer]->0, b1.kv[layer]->0);
    assert forall|j: int| 0 <= j < x1.len * kv_dim implies #[trigger] x1.k[j] == y1.k[j] by {
        assert(j < x.len * kv_dim ==> x.k[j] == y.k[j]);
    }
    assert forall|j: int| 0 <= j < x1.len * kv_dim implies #[trigger] x1.v[j] == y1.v[j] by {
        assert(j < x.len * kv_dim ==> x.v[j] == y.v[j]);
    }
    assert(same_tokens(c, a1.kv[layer], b1.kv[layer], n - 1));
    assert forall|i: int|
        #![trigger a1.kv[i]]
        #![trigger b1.kv[i]]
        0 <= i < c.num_layers && full_attention_at(i) implies same_tokens(
        c,
        a1.kv[i],
        b1.kv[i],
        if i < layer + 1 {
            n - 1
        } else {
            n
        },
    ) by {
        if i != layer {
            assert(a1.kv[i] == a.kv[i] && b1.kv[i] == b.kv[i]);
        }
    }
}

proof fn lemma_alike_layers<A: Arith>(
    ws: Weights,
    c: ModelConfig,
    experts: Seq<Vec<Option<Vec<u8>>>>,
    hidden: Seq<F32>,
    a: Memory,
    b: Memory,
    n: int,
    l: int,
)
    requires
        sizes_fit(c),
        c.num_layers >= 4 ==> heads_within(attn_dims_of(c)),
        0 <= l <= c.num_layers,
        1 <= n,
        alike(c, a, b, n, 0),
    ensures
        layers_on::<A>(ws, c, experts, hidden, a, l).0 == layers_on::<A>(
            ws,
            c,
            experts,
            hidden,
            b,
            l,
        ).0,
        alike(
            c,
            layers_on::<A>(ws, c, experts, hidden, a, l).1,
            layers_on::<A>(ws, c, experts, hidden, b, l).1,
            n,
            l,
        ),
    decreases l,
{
    if l > 0 {
        lemma_alike_layers::<A>(ws, c, experts, hidden, a, b, n, l - 1);
        let (h, x) = layers_on::<A>(ws, c, experts, hidden, a, l - 1);
        let (_, y) = layers_on::<A>(ws, c, experts, hidden, b, l - 1);
        if full_attention_at(l - 1) {
            lemma_alike_attention::<A>(ws, c, l - 1, h, x, y, n);
        } else {
            let (x1, y1) = (
                reference_memory::<A>(ws, l - 1, h, x, c),
                reference_memory::<A>(ws, l - 1, h, y, c),
            );
            assert(x.lin[l - 1] == y.lin[l - 1]);
            assert(x1.kv == x.kv && y1.kv == y.kv);
            assert forall|k: int|
                #![trigger x1.lin[k]]
                #![trigger y1.lin[k]]
                0 <= k < c.num_layers && !full_attention_at(k) implies x1.lin[k] == y1.lin[k] by {
                assert(k != l - 1 ==> x1.lin[k] == x.lin[k] && y1.lin[k] == y.lin[k]);
            }
        }
    }
}

/// Where every head looks at one token, a run depends on the caches only through the position, the
/// tokens that they hold and the linear states: two memories that are alike give the same logits,
/// and stay alike.
pub proof fn law_run_reads_tokens_only<A: Arith>(
    ws: Weights,
    c: ModelConfig,
    experts: Seq<Vec<Option<Vec<u8>>>>,
    ids: Seq<i64>,
    a: Memory,
    b: Memory,
    n: int,
)
    requires
        sizes_fit(c),
        c.num_layers >= 4 ==> heads_within(attn_dims_of(c)),
        ids.len() <= n,
        alike(c, a, b, n, 0),
    ensures
        tokens_on::<A>(ws, c, experts, ids, a).0 == tokens_on::<A>(ws, c, experts, ids, b).0,
        alike(
            c,
            tokens_on::<A>(ws, c, experts, ids, a).1,
            tokens_on::<A>(ws, c, experts, ids, b).1,
            n - ids.len(),
            0,
        ),
    decreases ids.len(),
{
    reveal(token_on);
    if ids.len() > 0 {
        law_run_reads_tokens_only::<A>(ws, c, experts, ids.drop_last(), a, b, n);
        let left = n - (ids.len() - 1);
        let (_, x) = tokens_on::<A>(ws, c, experts, ids.drop_last(), a);
        let (_, y) = tokens_on::<A>(ws, c, experts, ids.drop_last(), b);
        let h = embedded::<A>(ws, ids.last() as int, zero_seq(c.hidden_dim as int));
        lemma_alike_layers::<A>(ws, c, experts, h, x, y, left, c.num_layers as int);
        let (_, x1) = layers_on::<A>(ws, c, experts, h, x, c.num_layers as int);
        let (_, y1) = layers_on::<A>(ws, c, experts, h, y, c.num_layers as int);
        let (x2, y2) = (Memory { pos: x1.pos + 1, ..x1 }, Memory { pos: y1.pos + 1, ..y1 });
        assert forall|k: int|
            #![trigger x2.kv[k]]
            #![trigger y2.kv[k]]
            0 <= k < c.num_layers && full_attention_at(k) implies same_tokens(
            c,
            x2.kv[k],
            y2.kv[k],
            left - 1,
        ) by {
            assert(x1.kv[k] == x2.kv[k]);
        }
    }
}

/// After a reset, a model whose heads look at one token each runs as a new one does: the same
/// logits for every list of tokens that the caches have room for, and the same position after it.
pub proof fn law_reset_runs_as_new<A: Arith>(
    ws: Weights,
    c: ModelConfig,
    experts: Seq<Vec<Option<Vec<u8>>>>,
    ids: Seq<i64>,
    used: Cache,
    reset: Cache,
    fresh: Cache,
)
    requires
        sizes_fit(c),
        c.num_layers >= 4 ==> heads_within(attn_dims_of(c)),
        ids.len() <= 4096,
        takes(c, used@, 0),
        reset.pos == 0,
        reset.kv@.len() == used.kv@.len(),
        reset.lin@.len() == used.lin@.len(),
        forall|l: int| 0 <= l < used.kv@.len() ==> reset_kv(used.kv@[l], #[trigger] reset.kv@[l]),
        forall|l: int|
            0 <= l < used.lin@.len() ==> reset_lin(used.lin@[l], #[trigger] reset.lin@[l]),
        fresh.pos == 0,
        fresh.kv@.len() == c.num_layers,
        fresh.lin@.len() == c.num_layers,
        forall|l: int|
            0 <= l < c.num_layers ==> fresh_layer(c, l, #[trigger] fresh.kv@[l], fresh.lin@[l]),
    ensures
        tokens_on::<A>(ws, c, experts, ids, reset@).0 == tokens_on::<A>(
            ws,
            c,
            experts,
            ids,
            fresh@,
        ).0,
        tokens_on::<A>(ws, c, experts, ids, reset@).1.pos == tokens_on::<A>(
            ws,
            c,
            experts,
            ids,
            fresh@,
        ).1.pos,
{
    let d = lin_dims_of(c);
    let (h, v, k) = (d.num_v_heads as int, d.value_dim(), d.key_dim());
    assert(h * v * k == h * (v * k)) by (nonlinear_arith);
    let kv_dim = c.num_kv_heads * c.head_dim;
    assert(0 <= kv_dim) by (nonlinear_arith)
        requires
            kv_dim == c.num_kv_heads * c.head_dim,
    ;
    assert(0 * kv_dim == 0);
    assert forall|l: int|
        #![trigger reset@.lin[l]]
        #![trigger fresh@.lin[l]]
        0 <= l < c.num_layers && !full_attention_at(l) implies reset@.lin[l] == fresh@.lin[l] by {
        assert(layer_takes(c, used@, l, 0));
        assert(fresh_layer(c, l, fresh.kv@[l], fresh.lin@[l]));
        assert(reset_lin(used.lin@[l], reset.lin@[l]));
    }
    assert forall|l: int|
        #![trigger reset@.kv[l]]
        #![trigger fresh@.kv[l]]
        0 <= l < c.num_layers && full_attention_at(l) implies same_tokens(
        c,
        reset@.kv[l],
        fresh@.kv[l],
        4096,
    ) by {
        assert(layer_takes(c, used@, l, 0));
        assert(fresh_layer(c, l, fresh.kv@[l], fresh.lin@[l]));
        assert(reset_kv(used.kv@[l], reset.kv@[l]));
    }
    law_run_reads_tokens_only::<A>(ws, c, experts, ids, reset@, fresh@, 4096);
}

/// Caches that have seen no token take as many as a layer has room for, as long as the heads fit.
pub proof fn law_new_caches_take_tokens(c: ModelConfig, cache: Cache, n: int)
    requires
        sizes_fit(c),
        cache.pos == 0,
        cache.kv@.len() == c.num_layers,
        cache.lin@.len() == c.num_layers,
        forall|l: int|
            0 <= l < c.num_layers ==> fresh_layer(c, l, #[trigger] cache.kv@[l], cache.lin@[l]),
        0 <= n <= 4096,
        c.num_layers >= 4 && n > 0 ==> tokens_fit(c, n),
    ensures
        takes(c, cache@, n),
{
    assert forall|l: int| 0 <= l < c.num_layers implies #[trigger] layer_takes(c, cache@, l, n) by {
        assert(fresh_layer(c, l, cache.kv@[l], cache.lin@[l]));
        law_fresh_cache_has_room(c, l, cache);
    }
}

proof fn lemma_layer_can_run(
    ws: Weights,
    c: ModelConfig,
    cache: Cache,
    experts: Seq<Vec<Option<Vec<u8>>>>,
    l: int,
)
    requires
        model_fits(ws, c, experts),
        0 <= l < c.num_layers,
        cache@.kv.len() == c.num_layers,
        cache@.lin.len() == c.num_layers,
        layer_takes(c, cache@, l, 1),
    ensures
        crate::model::reference_fits(ws, l, c, cache),
        crate::model::block_fits(ws, l, c, experts[l]@),
{
    let n = if full_attention_at(l) {
        cache@.kv[l]->0.len
    } else {
        0
    };
    assert(layer_fits(ws, l, c));
    assert(whole_reads(experts[l]@, c.expert_size_4bit as int));
    assert(cache_has_room(c, l, cache, n));
    law_reference_layer_can_run(ws, l, c, cache, n, experts[l]@);
}

/// The questions of a run: question `q` of a token comes before layer `4 * q`, no other layer has
/// one before it, and a question without an answer does not stop the run.
pub proof fn law_questions(answers: Seq<Vec<bool>>, t: int, q: int, place: int)
    requires
        0 <= q,
        0 <= place < 4,
    ensures
        stop_at(answers, t, 4 * q + place) <==> {
            &&& place == 0
            &&& 0 <= t < answers.len()
            &&& q < answers[t]@.len()
            &&& answers[t]@[q]
        },
{
    assert((4 * q + place) / 4 == q && (4 * q + place) % 4 == place);
}

/// A run is stopped by the first question that is answered with yes, in the order of tokens and
/// then of layers, and by no other.
pub proof fn law_first_question(
    answers: Seq<Vec<bool>>,
    tokens: int,
    layers: int,
    a: (int, int),
    b: (int, int),
)
    requires
        first_stop(answers, tokens, layers, a.0, a.1),
        first_stop(answers, tokens, layers, b.0, b.1),
    ensures
        a == b,
        a.1 % 4 == 0,
        answers[a.0]@[a.1 / 4],
{
    if a.0 < b.0 || a.0 == b.0 && a.1 < b.1 {
        assert(!stop_at(answers, a.0, a.1));
    }
    if b.0 < a.0 || b.0 == a.0 && b.1 < a.1 {
        assert(!stop_at(answers, b.0, b.1));
    }
}

} // verus!
