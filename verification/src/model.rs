//! A layer of the model, and the order in which tokens go through the layers.

use crate::attention::{
    AttnDims, AttnStyle, after_attention, attn_fits, attn_weights_fit, full_attention,
    full_attention_forward, next_tokens,
};
use crate::cache::{Cache, FullAttnCache, LinearAttnState, Memory, cache_fits, fresh_layer};
use crate::config::{ModelConfig, full_attention_at, is_full_attention};
use crate::constants::MAX_SEQ;
use crate::float::{Arith, F32, deterministic};
use crate::linear::{
    LinDims, after_linear, lin_tensors_fit, lin_weights_fit, linear_attention,
    linear_attention_forward, next_state, state_fits,
};
use crate::math::SumOrder;
use crate::moe::{
    experts_fit, moe_after, moe_layer, moe_layer_forward, moe_weights_fit, post_normed, whole_reads,
};
use crate::weights::{Weights, in_layer, input_norm, norm_fits, normed_by, post_norm};
use vstd::prelude::*;

verus! {

/// The sizes of a model's full attention.
pub open spec fn attn_dims_of(c: ModelConfig) -> AttnDims {
    AttnDims {
        num_attn_heads: c.num_attn_heads,
        num_kv_heads: c.num_kv_heads,
        head_dim: c.head_dim,
        rotary_dim: c.rotary_dim,
        rope_theta: c.rope_theta,
    }
}

/// The sizes of a model's full attention.
pub fn attn_dims(c: &ModelConfig) -> (r: AttnDims)
    ensures
        r == attn_dims_of(*c),
{
    AttnDims {
        num_attn_heads: c.num_attn_heads,
        num_kv_heads: c.num_kv_heads,
        head_dim: c.head_dim,
        rotary_dim: c.rotary_dim,
        rope_theta: c.rope_theta,
    }
}

/// The sizes of a model's linear attention.
pub open spec fn lin_dims_of(c: ModelConfig) -> LinDims {
    LinDims {
        num_k_heads: c.linear_num_k_heads,
        num_v_heads: c.linear_num_v_heads,
        total_key: c.linear_total_key,
        total_value: c.linear_total_value,
        qkv_dim: c.linear_conv_dim,
    }
}

/// The sizes of a model's linear attention.
pub fn lin_dims(c: &ModelConfig) -> (r: LinDims)
    ensures
        r == lin_dims_of(*c),
{
    LinDims {
        num_k_heads: c.linear_num_k_heads,
        num_v_heads: c.linear_num_v_heads,
        total_key: c.linear_total_key,
        total_value: c.linear_total_value,
        qkv_dim: c.linear_conv_dim,
    }
}

/// The number of linear layers before a layer.
pub open spec fn linear_before(layer: int) -> int
    decreases layer,
{
    if layer <= 0 {
        0
    } else {
        linear_before(layer - 1) + if full_attention_at(layer - 1) {
            0int
        } else {
            1int
        }
    }
}

/// The place of a linear layer among the linear layers: the number of those before it.
pub fn linear_index(layer: usize) -> (r: usize)
    requires
        !full_attention_at(layer as int),
    ensures
        r == linear_before(layer as int),
{
    proof {
        law_linear_index(layer as int);
    }
    layer - layer / 4
}

/// Of every four layers, three are linear.
pub proof fn law_linear_index(layer: int)
    requires
        0 <= layer,
    ensures
        linear_before(layer) == layer - layer / 4,
    decreases layer,
{
    if layer > 0 {
        law_linear_index(layer - 1);
    }
}

/// What a layer remembers.
pub enum LayerState {
    FullAttention(FullAttnCache),
    LinearAttention(LinearAttnState),
}

/// What a layer remembers before the first token.
pub open spec fn fresh_layer_state(c: ModelConfig, layer: int, s: LayerState) -> bool {
    match s {
        LayerState::FullAttention(kv) => fresh_layer(c, layer, Some(kv), None),
        LayerState::LinearAttention(st) => fresh_layer(c, layer, None, Some(st)),
    }
}

/// What the layers of a model remember before the first token.
pub fn new_layer_states(c: &ModelConfig) -> (r: Vec<LayerState>)
    requires
        cache_fits(*c),
    ensures
        r@.len() == c.num_layers,
        forall|l: int| 0 <= l < c.num_layers ==> fresh_layer_state(*c, l, #[trigger] r@[l]),
{
    let mut out: Vec<LayerState> = Vec::new();
    for layer in 0..c.num_layers
        invariant
            cache_fits(*c),
            out@.len() == layer,
            forall|l: int| 0 <= l < layer ==> fresh_layer_state(*c, l, #[trigger] out@[l]),
    {
        if is_full_attention(layer) {
            let kv_dim: usize = c.num_kv_heads * c.head_dim;
            out.push(LayerState::FullAttention(FullAttnCache::new(MAX_SEQ, kv_dim)));
        } else {
            out.push(
                LayerState::LinearAttention(
                    LinearAttnState::new(
                        c.linear_num_v_heads,
                        c.linear_total_key / c.linear_num_k_heads,
                        c.linear_total_value / c.linear_num_v_heads,
                        c.linear_conv_dim,
                    ),
                ),
            );
        }
    }
    out
}

/// What a layer's attention needs of the weights and of what the layer remembers.
pub open spec fn attention_fits(ws: Weights, layer: int, c: ModelConfig, s: LayerState) -> bool {
    let hidden = c.hidden_dim as int;
    &&& c.hidden_dim <= i64::MAX
    &&& norm_fits(ws, in_layer(layer, ".input_layernorm.weight"@), hidden)
    &&& match s {
        LayerState::FullAttention(kv) => full_attention_at(layer) ==> {
            &&& attn_fits(attn_dims_of(c), kv)
            &&& attn_weights_fit(ws, layer, hidden, attn_dims_of(c))
        },
        LayerState::LinearAttention(st) => !full_attention_at(layer) ==> {
            &&& lin_dims_of(c).fit()
            &&& lin_tensors_fit(ws, layer, lin_dims_of(c))
            &&& lin_weights_fit(ws, layer, hidden, lin_dims_of(c))
            &&& state_fits(st, lin_dims_of(c))
        },
    }
}

/// The hidden vector after a layer's attention. A layer that remembers the wrong kind of state
/// leaves the vector as it is.
pub open spec fn hidden_after_attention<A: Arith>(
    ws: Weights,
    layer: int,
    hidden: Seq<F32>,
    s: LayerState,
    pos: int,
    c: ModelConfig,
) -> Seq<F32> {
    let normed = normed_by::<A>(
        ws,
        in_layer(layer, ".input_layernorm.weight"@),
        hidden,
        SumOrder::LeftToRight,
    );
    match s {
        LayerState::FullAttention(kv) => if full_attention_at(layer) {
            after_attention::<A>(
                ws,
                layer,
                normed,
                hidden,
                kv@,
                pos,
                attn_dims_of(c),
                AttnStyle::Server,
            )
        } else {
            hidden
        },
        LayerState::LinearAttention(st) => if !full_attention_at(layer) {
            after_linear::<A>(ws, layer, normed, hidden, st@, lin_dims_of(c), SumOrder::LeftToRight)
        } else {
            hidden
        },
    }
}

/// What a layer remembers after its attention.
pub open spec fn remembers_after<A: Arith>(
    ws: Weights,
    layer: int,
    hidden: Seq<F32>,
    before: LayerState,
    after: LayerState,
    pos: int,
    c: ModelConfig,
) -> bool {
    let normed = normed_by::<A>(
        ws,
        in_layer(layer, ".input_layernorm.weight"@),
        hidden,
        SumOrder::LeftToRight,
    );
    match (before, after) {
        (LayerState::FullAttention(b), LayerState::FullAttention(a)) => if full_attention_at(
            layer,
        ) {
            a@ == next_tokens::<A>(
                ws,
                layer,
                normed,
                b@,
                pos,
                attn_dims_of(c),
                AttnStyle::Server,
            )
        } else {
            a == b
        },
        (LayerState::LinearAttention(b), LayerState::LinearAttention(a)) => if !full_attention_at(
            layer,
        ) {
            a@ == next_state::<A>(ws, layer, normed, b@, lin_dims_of(c), SumOrder::LeftToRight)
        } else {
            a == b
        },
        _ => false,
    }
}

/// What a layer remembers keeps its kind and its room; full attention remembers one token more.
pub open spec fn room_kept(layer: int, before: LayerState, after: LayerState) -> bool {
    match (before, after) {
        (LayerState::FullAttention(b), LayerState::FullAttention(a)) => {
            &&& a.k_cache@.len() == b.k_cache@.len()
            &&& a.v_cache@.len() == b.v_cache@.len()
            &&& a.len == b.len + if full_attention_at(layer) {
                1int
            } else {
                0int
            }
        },
        (LayerState::LinearAttention(b), LayerState::LinearAttention(a)) => {
            &&& a.conv_state@.len() == b.conv_state@.len()
            &&& a.ssm_state@.len() == b.ssm_state@.len()
        },
        _ => false,
    }
}

/// Runs the attention of a layer.
pub fn attend_layer<A: Arith>(
    ws: &Weights,
    layer_idx: usize,
    hidden: &mut Vec<F32>,
    state: &mut LayerState,
    pos: usize,
    c: &ModelConfig,
)
    requires
        old(hidden)@.len() == c.hidden_dim,
        attention_fits(*ws, layer_idx as int, *c, *old(state)),
    ensures
        final(hidden)@.len() == old(hidden)@.len(),
        room_kept(layer_idx as int, *old(state), *final(state)),
        deterministic::<A>() ==> final(hidden)@ == hidden_after_attention::<A>(
            *ws,
            layer_idx as int,
            old(hidden)@,
            *old(state),
            pos as int,
            *c,
        ),
        deterministic::<A>() ==> remembers_after::<A>(
            *ws,
            layer_idx as int,
            old(hidden)@,
            *old(state),
            *final(state),
            pos as int,
            *c,
        ),
{
    let full: bool = is_full_attention(layer_idx);
    match state {
        LayerState::FullAttention(kv) => {
            if full {
                let d: AttnDims = attn_dims(c);
                full_attention_forward::<A>(ws, layer_idx, hidden, kv, pos, &d);
            }
        },
        LayerState::LinearAttention(st) => {
            if !full {
                let d: LinDims = lin_dims(c);
                linear_attention_forward::<A>(ws, layer_idx, hidden, st, &d);
            }
        },
    }
}

/// What a layer's block of experts needs.
pub open spec fn block_fits(
    ws: Weights,
    layer: int,
    c: ModelConfig,
    experts: Seq<Option<Vec<u8>>>,
) -> bool {
    &&& c.hidden_dim <= i64::MAX
    &&& moe_weights_fit(ws, layer, c)
    &&& whole_reads(experts, c.expert_size_4bit as int)
    &&& experts_fit(c)
    &&& c.num_experts_per_tok <= usize::MAX / 2 - 1
    &&& c.num_experts > 0 ==> c.num_experts_per_tok > 0
}

/// Runs a layer: attention, then the block of experts.
pub fn forward_layer<A: Arith>(
    ws: &Weights,
    layer_idx: usize,
    hidden: &mut Vec<F32>,
    state: &mut LayerState,
    pos: usize,
    experts: &Vec<Option<Vec<u8>>>,
    c: &ModelConfig,
)
    requires
        old(hidden)@.len() == c.hidden_dim,
        attention_fits(*ws, layer_idx as int, *c, *old(state)),
        block_fits(*ws, layer_idx as int, *c, experts@),
    ensures
        final(hidden)@.len() == old(hidden)@.len(),
        room_kept(layer_idx as int, *old(state), *final(state)),
        deterministic::<A>() ==> {
            let mid = hidden_after_attention::<A>(
                *ws,
                layer_idx as int,
                old(hidden)@,
                *old(state),
                pos as int,
                *c,
            );
            final(hidden)@ == moe_after::<A>(
                *ws,
                layer_idx as int,
                mid,
                post_normed::<A>(*ws, layer_idx as int, mid, SumOrder::LeftToRight),
                experts@,
                *c,
                SumOrder::LeftToRight,
            )
        },
        deterministic::<A>() ==> remembers_after::<A>(
            *ws,
            layer_idx as int,
            old(hidden)@,
            *old(state),
            *final(state),
            pos as int,
            *c,
        ),
{
    attend_layer::<A>(ws, layer_idx, hidden, state, pos, c);
    moe_layer_forward::<A>(ws, layer_idx, hidden, experts, c);
}

/// What a layer of the reference engine needs of the weights and of the cache.
pub open spec fn reference_fits(ws: Weights, layer: int, c: ModelConfig, cache: Cache) -> bool {
    let hidden = c.hidden_dim as int;
    &&& 0 <= layer < cache.kv@.len()
    &&& layer < cache.lin@.len()
    &&& c.hidden_dim <= i64::MAX
    &&& norm_fits(ws, in_layer(layer, ".input_layernorm.weight"@), hidden)
    &&& norm_fits(ws, in_layer(layer, ".post_attention_layernorm.weight"@), hidden)
    &&& if full_attention_at(layer) {
        cache.kv@[layer] matches Some(kv) && {
            &&& kv.len < 4096
            &&& attn_fits(attn_dims_of(c), kv)
            &&& attn_weights_fit(ws, layer, hidden, attn_dims_of(c))
        }
    } else {
        cache.lin@[layer] matches Some(st) && {
            &&& lin_dims_of(c).fit()
            &&& lin_tensors_fit(ws, layer, lin_dims_of(c))
            &&& lin_weights_fit(ws, layer, hidden, lin_dims_of(c))
            &&& state_fits(st, lin_dims_of(c))
        }
    }
}

/// The hidden vector after the attention of a layer of the reference engine.
pub open spec fn reference_mid<A: Arith>(
    ws: Weights,
    layer: int,
    hidden: Seq<F32>,
    m: Memory,
    c: ModelConfig,
) -> Seq<F32> {
    let normed = normed_by::<A>(
        ws,
        in_layer(layer, ".input_layernorm.weight"@),
        hidden,
        SumOrder::Supplied,
    );
    if full_attention_at(layer) {
        after_attention::<A>(
            ws,
            layer,
            normed,
            hidden,
            m.kv[layer]->0,
            m.pos,
            attn_dims_of(c),
            AttnStyle::Reference,
        )
    } else {
        after_linear::<A>(
            ws,
            layer,
            normed,
            hidden,
            m.lin[layer]->0,
            lin_dims_of(c),
            SumOrder::Supplied,
        )
    }
}

/// What the layers remember after a layer of the reference engine: only that layer's part changes.
pub open spec fn reference_memory<A: Arith>(
    ws: Weights,
    layer: int,
    hidden: Seq<F32>,
    m: Memory,
    c: ModelConfig,
) -> Memory {
    let normed = normed_by::<A>(
        ws,
        in_layer(layer, ".input_layernorm.weight"@),
        hidden,
        SumOrder::Supplied,
    );
    if full_attention_at(layer) {
        let next = next_tokens::<A>(
            ws,
            layer,
            normed,
            m.kv[layer]->0,
            m.pos,
            attn_dims_of(c),
            AttnStyle::Reference,
        );
        Memory { kv: m.kv.update(layer, Some(next)), ..m }
    } else {
        let next = next_state::<A>(
            ws,
            layer,
            normed,
            m.lin[layer]->0,
            lin_dims_of(c),
            SumOrder::Supplied,
        );
        Memory { lin: m.lin.update(layer, Some(next)), ..m }
    }
}

/// The hidden vector after a layer of the reference engine: attention, then the block of experts.
pub open spec fn reference_hidden<A: Arith>(
    ws: Weights,
    layer: int,
    hidden: Seq<F32>,
    m: Memory,
    experts: Seq<Option<Vec<u8>>>,
    c: ModelConfig,
) -> Seq<F32> {
    let mid = reference_mid::<A>(ws, layer, hidden, m, c);
    moe_after::<A>(
        ws,
        layer,
        mid,
        post_normed::<A>(ws, layer, mid, SumOrder::Supplied),
        experts,
        c,
        SumOrder::Supplied,
    )
}

/// The rest of the caches stays.
pub open spec fn other_layers_stay(before: Cache, after: Cache, layer: int) -> bool {
    &&& after.pos == before.pos
    &&& after.kv@.len() == before.kv@.len()
    &&& after.lin@.len() == before.lin@.len()
    &&& forall|l: int|
        0 <= l < before.kv@.len() && (l != layer || !full_attention_at(layer))
            ==> #[trigger] after.kv@[l] == before.kv@[l]
    &&& forall|l: int|
        0 <= l < before.lin@.len() && (l != layer || full_attention_at(layer))
            ==> #[trigger] after.lin@[l] == before.lin@[l]
}

/// The cache of a layer keeps its room; full attention remembers one token more.
pub open spec fn cache_room_kept(layer: int, before: Cache, after: Cache) -> bool {
    if full_attention_at(layer) {
        before.kv@[layer] matches Some(b) ==> after.kv@[layer] matches Some(a) && room_kept(
            layer,
            LayerState::FullAttention(b),
            LayerState::FullAttention(a),
        )
    } else {
        before.lin@[layer] matches Some(b) ==> after.lin@[layer] matches Some(a) && room_kept(
            layer,
            LayerState::LinearAttention(b),
            LayerState::LinearAttention(a),
        )
    }
}

/// Runs the attention of a layer of the reference engine.
pub fn reference_attention<A: Arith>(
    ws: &Weights,
    layer: usize,
    hidden: &mut Vec<F32>,
    cache: &mut Cache,
    c: &ModelConfig,
)
    requires
        old(hidden)@.len() == c.hidden_dim,
        reference_fits(*ws, layer as int, *c, *old(cache)),
    ensures
        final(hidden)@.len() == old(hidden)@.len(),
        other_layers_stay(*old(cache), *final(cache), layer as int),
        cache_room_kept(layer as int, *old(cache), *final(cache)),
        deterministic::<A>() ==> final(hidden)@ == reference_mid::<A>(
            *ws,
            layer as int,
            old(hidden)@,
            old(cache)@,
            *c,
        ),
        deterministic::<A>() ==> final(cache)@ == reference_memory::<A>(
            *ws,
            layer as int,
            old(hidden)@,
            old(cache)@,
            *c,
        ),
{
    let normed: Vec<F32> = input_norm::<A>(ws, layer, hidden.as_slice(), SumOrder::Supplied);
    let pos: usize = cache.pos;
    if is_full_attention(layer) {
        let d: AttnDims = attn_dims(c);
        match &mut cache.kv[layer] {
            Some(kv) => {
                let out: Vec<F32> = full_attention::<A>(
                    ws,
                    layer,
                    normed.as_slice(),
                    hidden.as_slice(),
                    kv,
                    pos,
                    &d,
                    AttnStyle::Reference,
                );
                *hidden = out;
            },
            None => {},
        }
    } else {
        let d: LinDims = lin_dims(c);
        match &mut cache.lin[layer] {
            Some(st) => {
                let out: Vec<F32> = linear_attention::<A>(
                    ws,
                    layer,
                    normed.as_slice(),
                    hidden.as_slice(),
                    st,
                    &d,
                    SumOrder::Supplied,
                );
                *hidden = out;
            },
            None => {},
        }
    }
}

/// Runs a layer of the reference engine: attention, then the block of experts.
pub fn reference_layer<A: Arith>(
    ws: &Weights,
    layer: usize,
    hidden: &mut Vec<F32>,
    cache: &mut Cache,
    experts: &Vec<Option<Vec<u8>>>,
    c: &ModelConfig,
)
    requires
        old(hidden)@.len() == c.hidden_dim,
        reference_fits(*ws, layer as int, *c, *old(cache)),
        block_fits(*ws, layer as int, *c, experts@),
    ensures
        final(hidden)@.len() == old(hidden)@.len(),
        other_layers_stay(*old(cache), *final(cache), layer as int),
        cache_room_kept(layer as int, *old(cache), *final(cache)),
        deterministic::<A>() ==> final(hidden)@ == reference_hidden::<A>(
            *ws,
            layer as int,
            old(hidden)@,
            old(cache)@,
            experts@,
            *c,
        ),
        deterministic::<A>() ==> final(cache)@ == reference_memory::<A>(
            *ws,
            layer as int,
            old(hidden)@,
            old(cache)@,
            *c,
        ),
{
    reference_attention::<A>(ws, layer, hidden, cache, c);
    let h_post: Vec<F32> = post_norm::<A>(ws, layer, hidden.as_slice(), SumOrder::Supplied);
    let out: Vec<F32> = moe_layer::<A>(
        ws,
        layer,
        hidden.as_slice(),
        h_post,
        experts,
        c,
        SumOrder::Supplied,
    );
    *hidden = out;
}

} // verus!
