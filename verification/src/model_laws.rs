//! What a layer does with the vector that goes through it, and a run with its tokens.

use crate::attention::{AttnDims, AttnStyle, after_attention, next_tokens};
use crate::cache::Memory;
use crate::config::ModelConfig;
use crate::embed::{embedded, final_normed};
use crate::float::{Arith, F32, zero};
use crate::forward::{layers_on, token_on, token_through, tokens_on};
use crate::linear::{LinDims, after_linear, next_state};
use crate::math::SumOrder;
use crate::model::{
    LayerState, hidden_after_attention, reference_hidden, reference_memory, reference_mid,
    remembers_after,
};
use crate::moe::moe_after;
use crate::text::decimal;
use crate::weights::{Weights, normed_by, projected};
use vstd::prelude::*;

verus! {

/// The sizes of full attention, from those of a model.
pub open spec fn attention_sizes(c: ModelConfig, d: AttnDims) -> bool {
    &&& d.num_attn_heads == c.num_attn_heads
    &&& d.num_kv_heads == c.num_kv_heads
    &&& d.head_dim == c.head_dim
    &&& d.rotary_dim == c.rotary_dim
    &&& d.rope_theta == c.rope_theta
}

/// The sizes of linear attention, from those of a model.
pub open spec fn linear_sizes(c: ModelConfig, d: LinDims) -> bool {
    &&& d.num_k_heads == c.linear_num_k_heads
    &&& d.num_v_heads == c.linear_num_v_heads
    &&& d.total_key == c.linear_total_key
    &&& d.total_value == c.linear_total_value
    &&& d.qkv_dim == c.linear_conv_dim
}

/// A layer of the reference engine, put together: the vector is normed, goes through the attention
/// of the layer, which is full in the last of every four layers, and is added to what came in; the
/// result is normed again and goes through the experts. Of what the layers remember, only the part
/// of this layer changes, and the position stays.
pub proof fn law_reference_layer<A: Arith>(
    ws: Weights,
    layer: int,
    hidden: Seq<F32>,
    m: Memory,
    experts: Seq<Option<Vec<u8>>>,
    c: ModelConfig,
    attn: AttnDims,
    lin: LinDims,
    other: int,
)
    requires
        0 <= layer < m.kv.len(),
        m.kv.len() == m.lin.len(),
        0 <= other < m.kv.len(),
        attention_sizes(c, attn),
        linear_sizes(c, lin),
    ensures
        ({
            let name = "model.layers."@ + decimal(layer);
            let (sum, style) = (SumOrder::Supplied, AttnStyle::Reference);
            let x = normed_by::<A>(ws, name + ".input_layernorm.weight"@, hidden, sum);
            let mid = reference_mid::<A>(ws, layer, hidden, m, c);
            let y = normed_by::<A>(ws, name + ".post_attention_layernorm.weight"@, mid, sum);
            let after = reference_memory::<A>(ws, layer, hidden, m, c);
            let (kv, st) = (m.kv[layer]->0, m.lin[layer]->0);
            &&& mid == if layer % 4 == 3 {
                after_attention::<A>(ws, layer, x, hidden, kv, m.pos, attn, style)
            } else {
                after_linear::<A>(ws, layer, x, hidden, st, lin, sum)
            }
            &&& reference_hidden::<A>(ws, layer, hidden, m, experts, c) == moe_after::<A>(
                ws,
                layer,
                mid,
                y,
                experts,
                c,
                sum,
            )
            &&& after.pos == m.pos
            &&& after.kv.len() == m.kv.len() && after.lin.len() == m.lin.len()
            &&& other != layer ==> after.kv[other] == m.kv[other] && after.lin[other]
                == m.lin[other]
            &&& layer % 4 == 3 ==> after.lin[layer] == m.lin[layer] && after.kv[layer] == Some(
                next_tokens::<A>(ws, layer, x, kv, m.pos, attn, style),
            )
            &&& layer % 4 != 3 ==> after.kv[layer] == m.kv[layer] && after.lin[layer] == Some(
                next_state::<A>(ws, layer, x, st, lin, sum),
            )
        }),
{
}

/// The attention of a layer of the server, put together: the vector is normed and goes through the
/// attention of the layer. A layer that remembers the wrong kind of state changes neither the
/// vector nor that state.
pub proof fn law_server_layer<A: Arith>(
    ws: Weights,
    layer: int,
    hidden: Seq<F32>,
    before: LayerState,
    after: LayerState,
    pos: int,
    c: ModelConfig,
    attn: AttnDims,
    lin: LinDims,
)
    requires
        0 <= layer,
        attention_sizes(c, attn),
        linear_sizes(c, lin),
        remembers_after::<A>(ws, layer, hidden, before, after, pos, c),
    ensures
        ({
            let name = "model.layers."@ + decimal(layer) + ".input_layernorm.weight"@;
            let (sum, style) = (SumOrder::LeftToRight, AttnStyle::Server);
            let x = normed_by::<A>(ws, name, hidden, sum);
            let y = hidden_after_attention::<A>(ws, layer, hidden, before, pos, c);
            match before {
                LayerState::FullAttention(b) => {
                    &&& after matches LayerState::FullAttention(a)
                    &&& layer % 4 == 3 ==> {
                        &&& y == after_attention::<A>(ws, layer, x, hidden, b@, pos, attn, style)
                        &&& a@ == next_tokens::<A>(ws, layer, x, b@, pos, attn, style)
                    }
                    &&& layer % 4 != 3 ==> y == hidden && a == b
                },
                LayerState::LinearAttention(b) => {
                    &&& after matches LayerState::LinearAttention(a)
                    &&& layer % 4 != 3 ==> {
                        &&& y == after_linear::<A>(ws, layer, x, hidden, b@, lin, sum)
                        &&& a@ == next_state::<A>(ws, layer, x, b@, lin, sum)
                    }
                    &&& layer % 4 == 3 ==> y == hidden && a == b
                },
            }
        }),
{
}

/// A token on its way: it begins as its embedding, goes through the layers in order, each with its
/// own experts, and its logits are the product of the last matrix with the norm of what comes out.
/// The position moves on by one.
pub proof fn law_token<A: Arith>(
    ws: Weights,
    c: ModelConfig,
    experts: Seq<Vec<Option<Vec<u8>>>>,
    token: int,
    m: Memory,
    l: int,
)
    requires
        0 <= l < c.num_layers,
    ensures
        ({
            let at = |n: int| token_through::<A>(ws, c, experts, token, m, n);
            let (h, k) = at(l);
            let (y, end) = at(c.num_layers as int);
            let (logits, after) = token_on::<A>(ws, c, experts, token, m);
            &&& at(0) == (
                embedded::<A>(ws, token, Seq::new(c.hidden_dim as nat, |i: int| zero())),
                m,
            )
            &&& at(l + 1) == (
                reference_hidden::<A>(ws, l, h, k, experts[l]@, c),
                reference_memory::<A>(ws, l, h, k, c),
            )
            &&& logits == projected::<A>(
                ws,
                "lm_head"@,
                final_normed::<A>(ws, y),
                c.vocab_size as int,
            )
            &&& after.kv == end.kv && after.lin == end.lin && after.pos == end.pos + 1
        }),
{
    reveal(token_on);
    assert(crate::math::zero_seq(c.hidden_dim as int) =~= Seq::new(
        c.hidden_dim as nat,
        |i: int| zero(),
    ));
}

/// Tokens run one after the other: one more token runs on what the layers remember after the
/// others, and its logits stand behind theirs.
pub proof fn law_one_more_token<A: Arith>(
    ws: Weights,
    c: ModelConfig,
    experts: Seq<Vec<Option<Vec<u8>>>>,
    ids: Seq<i64>,
    id: i64,
    m: Memory,
)
    ensures
        ({
            let (logits, k) = tokens_on::<A>(ws, c, experts, ids, m);
            let (x, after) = token_on::<A>(ws, c, experts, id as int, k);
            &&& tokens_on::<A>(ws, c, experts, ids.push(id), m) == (logits + x, after)
            &&& tokens_on::<A>(ws, c, experts, Seq::empty(), m) == (Seq::<F32>::empty(), m)
        }),
{
    assert(ids.push(id).drop_last() =~= ids);
}

proof fn lemma_layers_count<A: Arith>(
    ws: Weights,
    c: ModelConfig,
    experts: Seq<Vec<Option<Vec<u8>>>>,
    hidden: Seq<F32>,
    m: Memory,
    n: int,
    l: int,
)
    requires
        0 <= n <= m.kv.len(),
        m.lin.len() == m.kv.len(),
        0 <= l < m.kv.len(),
        l % 4 == 3,
        m.kv[l] is Some,
    ensures
        ({
            let after = layers_on::<A>(ws, c, experts, hidden, m, n).1;
            &&& after.pos == m.pos
            &&& after.kv.len() == m.kv.len() && after.lin.len() == m.lin.len()
            &&& after.kv[l] is Some
            &&& after.kv[l]->0.len == m.kv[l]->0.len + if l < n {
                1int
            } else {
                0int
            }
        }),
    decreases n,
{
    if n > 0 {
        lemma_layers_count::<A>(ws, c, experts, hidden, m, n - 1, l);
    }
}

/// Every token is remembered once: after a run the position has moved on by the number of tokens,
/// and every layer with full attention holds that many tokens more.
pub proof fn law_tokens_counted<A: Arith>(
    ws: Weights,
    c: ModelConfig,
    experts: Seq<Vec<Option<Vec<u8>>>>,
    ids: Seq<i64>,
    m: Memory,
    l: int,
)
    requires
        m.kv.len() == c.num_layers,
        m.lin.len() == c.num_layers,
        0 <= l < c.num_layers,
        l % 4 == 3,
        m.kv[l] is Some,
    ensures
        ({
            let (logits, after) = tokens_on::<A>(ws, c, experts, ids, m);
            &&& logits.len() == ids.len() * c.vocab_size
            &&& after.pos == m.pos + ids.len()
            &&& after.kv.len() == m.kv.len() && after.lin.len() == m.lin.len()
            &&& after.kv[l] is Some
            &&& after.kv[l]->0.len == m.kv[l]->0.len + ids.len()
        }),
    decreases ids.len(),
{
    reveal(token_on);
    if ids.len() > 0 {
        let before = ids.drop_last();
        law_tokens_counted::<A>(ws, c, experts, before, m, l);
        let (_, k) = tokens_on::<A>(ws, c, experts, before, m);
        let h = embedded::<A>(
            ws,
            ids.last() as int,
            crate::math::zero_seq(c.hidden_dim as int),
        );
        lemma_layers_count::<A>(ws, c, experts, h, k, c.num_layers as int, l);
        assert(ids.len() * c.vocab_size == before.len() * c.vocab_size + c.vocab_size)
            by (nonlinear_arith)
            requires
                ids.len() == before.len() + 1,
        ;
    } else {
        assert(0 * c.vocab_size == 0);
    }
}

} // verus!
