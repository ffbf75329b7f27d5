//! Checks that a model's weights and sizes fit together, so that its layers can run.

use crate::attention::{attn_weights_fit, heads_fit, kv_head, law_cache_has_room};
use crate::cache::{Cache, cache_fits, fresh_layer, fresh_state, reset_kv, reset_lin};
use crate::config::{ExpertLayout, ModelConfig, full_attention_at, is_full_attention};
use crate::constants::MAX_SEQ;
use crate::embed::{embed_fits, embed_groups, embed_words};
use crate::grid::{lemma_cell, rows_fit};
use crate::int4::table_fits;
use crate::linear::{LinDims, law_fresh_state_fits, lin_tensors_fit, lin_weights_fit};
use crate::linear_laws::law_key_heads;
use crate::model::{
    LayerState, attention_fits, attn_dims_of, block_fits, cache_room_kept, fresh_layer_state, lin_dims,
    lin_dims_of, other_layers_stay, reference_fits, room_kept,
};
use crate::moe::{experts_fit, layout_fits, moe_weights_fit, whole_reads};
use crate::rope::turned;
use crate::text::decimal;
use crate::weights::{
    Weights, f32s_of, get_matrix, in_layer, layer_name, matrix_of, named_fits, norm_fits, shape_of,
    u16s_of,
};
use vstd::prelude::*;

verus! {

fn product_within(a: usize, b: usize, most: usize) -> (r: bool)
    ensures
        r == (a * b <= most),
{
    match a.checked_mul(b) {
        Some(p) => p <= most,
        None => false,
    }
}

fn rows_within(len: usize, rows: usize, cols: usize, used: usize) -> (r: bool)
    ensures
        r == rows_fit(len as int, rows as int, cols as int, used as int),
{
    if rows == 0 || used == 0 {
        return true;
    }
    match (rows - 1).checked_mul(cols) {
        Some(p) => match p.checked_add(used) {
            Some(end) => end <= len,
            None => false,
        },
        None => {
            assert((rows - 1) * cols > usize::MAX);
            false
        },
    }
}

proof fn lemma_used(in_dim: int, group: int)
    requires
        0 <= in_dim,
        0 < group,
    ensures
        0 <= in_dim / group * (group / 8) <= in_dim,
        0 <= in_dim / group * group <= in_dim,
{
    vstd::arithmetic::div_mod::lemma_fundamental_div_mod(in_dim, group);
    let q = in_dim / group;
    assert(0 <= q) by (nonlinear_arith)
        requires
            0 <= in_dim,
            0 < group,
            q == in_dim / group,
    ;
    assert(0 <= q * (group / 8) <= q * group) by (nonlinear_arith)
        requires
            0 <= q,
            0 < group,
            0 <= group / 8 <= group,
    ;
    assert(group * q == q * group) by (nonlinear_arith);
}

fn table_within(packed: usize, scales: usize, biases: usize, rows: usize, in_dim: usize) -> (r: bool)
    ensures
        r == table_fits(
            packed as int,
            scales as int,
            biases as int,
            rows as int,
            in_dim as int,
            64,
        ),
{
    proof {
        lemma_used(in_dim as int, 64);
    }
    let groups: usize = in_dim / 64;
    rows_within(packed, rows, in_dim / 8, groups * 8) && product_within(rows, groups, scales)
        && product_within(rows, groups, biases)
}

fn named_ready(ws: &Weights, name: &str, rows: usize, cols: usize) -> (r: bool)
    ensures
        r == named_fits(*ws, name@, rows as int, cols as int),
{
    match get_matrix(ws, name) {
        Some(m) => table_within(m.w.len(), m.s.len(), m.b.len(), rows, cols),
        None => true,
    }
}

fn norm_ready(ws: &Weights, name: &str, n: usize) -> (r: bool)
    ensures
        r == norm_fits(*ws, name@, n as int),
{
    match ws.get_tensor_u16(name) {
        Some(w) => n <= w.len(),
        None => true,
    }
}

/// The sizes of a model fit together and the machine can address everything: there are at most as
/// many key heads as query heads, the turned numbers lie within a head, the convolution covers
/// queries, keys and values, linear heads lie within them, the parts of an expert lie within it,
/// and at least one expert is chosen where there are any.
pub open spec fn sizes_fit(c: ModelConfig) -> bool {
    &&& c.hidden_dim <= i64::MAX
    &&& c.num_experts_per_tok <= usize::MAX / 2 - 1
    &&& c.num_experts > 0 ==> c.num_experts_per_tok > 0
    &&& experts_fit(c)
    &&& attn_sizes_fit(c)
    &&& lin_sizes_fit(lin_dims_of(c))
}

fn layout_ready(l: &ExpertLayout, size: usize, hidden: usize, inter: usize) -> (r: bool)
    ensures
        r == layout_fits(*l, size as int, hidden as int, inter as int),
{
    part_within(l.gate_w_off, l.gate_w_size, size) && part_within(l.gate_s_off, l.gate_s_size, size)
        && part_within(l.gate_b_off, l.gate_b_size, size) && part_within(
        l.up_w_off,
        l.up_w_size,
        size,
    ) && part_within(l.up_s_off, l.up_s_size, size) && part_within(l.up_b_off, l.up_b_size, size)
        && part_within(l.down_w_off, l.down_w_size, size) && part_within(
        l.down_s_off,
        l.down_s_size,
        size,
    ) && part_within(l.down_b_off, l.down_b_size, size) && table_within(
        l.gate_w_size / 4,
        l.gate_s_size / 2,
        l.gate_b_size / 2,
        inter,
        hidden,
    ) && table_within(l.up_w_size / 4, l.up_s_size / 2, l.up_b_size / 2, inter, hidden)
        && table_within(l.down_w_size / 4, l.down_s_size / 2, l.down_b_size / 2, hidden, inter)
}

fn part_within(off: usize, len: usize, size: usize) -> (r: bool)
    ensures
        r == (off + len <= size),
{
    match off.checked_add(len) {
        Some(end) => end <= size,
        None => false,
    }
}

/// What [`sizes_fit`] asks of full attention.
pub open spec fn attn_sizes_fit(c: ModelConfig) -> bool {
    &&& c.head_dim <= i64::MAX
    &&& turned(c.rotary_dim as int) <= c.head_dim
    &&& 0 < c.num_kv_heads
    &&& c.num_attn_heads == 0 || c.num_kv_heads <= c.num_attn_heads
    &&& c.num_attn_heads * (2 * c.head_dim) <= usize::MAX
    &&& 4096 * (c.num_kv_heads * c.head_dim) <= usize::MAX
}

/// What [`sizes_fit`] asks of linear attention.
pub open spec fn lin_sizes_fit(d: LinDims) -> bool {
    &&& d.fit()
    &&& d.num_v_heads * (d.value_dim() * d.key_dim()) <= usize::MAX
}

fn is_long(n: usize) -> (r: bool)
    ensures
        r == (n > i64::MAX),
{
    n as u64 > i64::MAX as u64
}

fn attn_sizes_ready(c: &ModelConfig) -> (r: bool)
    ensures
        r == attn_sizes_fit(*c),
{
    if c.num_kv_heads == 0 || is_long(c.head_dim) {
        return false;
    }
    if c.num_attn_heads > 0 && c.num_kv_heads > c.num_attn_heads {
        return false;
    }
    let pairs: usize = c.rotary_dim / 2 + c.rotary_dim % 2;
    if pairs > c.head_dim / 2 {
        return false;
    }
    let (h, k, n) = (c.num_attn_heads, c.num_kv_heads, c.head_dim);
    assert(h * (2 * n) == 2 * (h * n)) by (nonlinear_arith);
    match h.checked_mul(n) {
        Some(q) => if q > usize::MAX / 2 {
            return false;
        },
        None => {
            return false;
        },
    }
    match k.checked_mul(n) {
        Some(kv) => kv <= usize::MAX / 4096,
        None => false,
    }
}

/// Whether every value head uses a key head that lies within the keys. The last one uses the last.
fn key_heads_within(d: &LinDims) -> (r: bool)
    requires
        0 < d.num_k_heads <= d.num_v_heads,
    ensures
        r == forall|vh: int|
            0 <= vh < d.num_v_heads ==> #[trigger] d.key_head(vh) * d.key_dim() + d.key_dim()
                <= d.total_key,
{
    let (n, k) = (d.num_v_heads, d.num_k_heads);
    proof {
        vstd::arithmetic::div_mod::lemma_div_non_zero(n as int, k as int);
    }
    let per: usize = n / k;
    let last: usize = (n - 1) / per;
    let key_dim: usize = d.total_key / k;
    proof {
        assert(last == d.key_head(n - 1));
        assert forall|vh: int| 0 <= vh < n implies 0 <= #[trigger] d.key_head(vh) * d.key_dim()
            <= last * key_dim by {
            let kh = d.key_head(vh);
            vstd::arithmetic::div_mod::lemma_div_pos_is_pos(vh, per as int);
            vstd::arithmetic::div_mod::lemma_div_is_ordered(vh, n - 1, per as int);
            assert(0 <= kh * key_dim <= last * key_dim) by (nonlinear_arith)
                requires
                    0 <= kh <= last,
                    0 <= key_dim,
            ;
        }
        assert(d.key_head(n - 1) * d.key_dim() == last * key_dim);
    }
    match last.checked_mul(key_dim) {
        Some(start) => match start.checked_add(key_dim) {
            Some(end) => end <= d.total_key,
            None => false,
        },
        None => false,
    }
}

fn lin_sizes_ready(d: &LinDims) -> (r: bool)
    ensures
        r == lin_sizes_fit(*d),
{
    if d.num_k_heads == 0 || d.num_k_heads > d.num_v_heads {
        return false;
    }
    if is_long(d.total_key) || is_long(d.total_value) || !key_heads_within(d) {
        return false;
    }
    if d.qkv_dim > usize::MAX / 4 {
        return false;
    }
    let value_dim: usize = d.total_value / d.num_v_heads;
    let key_dim: usize = d.total_key / d.num_k_heads;
    proof {
        lemma_used(d.total_value as int, d.num_v_heads as int);
        let (n, v) = (d.num_v_heads as int, value_dim as int);
        assert(n * v == v * n) by (nonlinear_arith);
    }
    let values: usize = d.num_v_heads * value_dim;
    match d.total_key.checked_mul(2) {
        Some(keys) => match keys.checked_add(values) {
            Some(all) => if all > d.qkv_dim {
                return false;
            },
            None => {
                return false;
            },
        },
        None => {
            return false;
        },
    }
    proof {
        let (n, v, k) = (d.num_v_heads as int, value_dim as int, key_dim as int);
        assert(n * v * k == n * (v * k)) by (nonlinear_arith);
    }
    product_within(values, key_dim, usize::MAX)
}

/// Whether the sizes of a model fit together.
pub fn sizes_ready(c: &ModelConfig) -> (r: bool)
    ensures
        r == sizes_fit(*c),
{
    if is_long(c.hidden_dim) || c.num_experts_per_tok > usize::MAX / 2 - 1 {
        return false;
    }
    if c.num_experts > 0 && c.num_experts_per_tok == 0 {
        return false;
    }
    layout_ready(
        &c.expert_layout_4bit,
        c.expert_size_4bit,
        c.hidden_dim,
        c.moe_intermediate,
    ) && attn_sizes_ready(c) && lin_sizes_ready(&lin_dims(c))
}

/// The tensors of a layer, where they are there, have the sizes that the model asks for.
pub open spec fn layer_fits(ws: Weights, layer: int, c: ModelConfig) -> bool {
    let hidden = c.hidden_dim as int;
    &&& norm_fits(ws, in_layer(layer, ".input_layernorm.weight"@), hidden)
    &&& moe_weights_fit(ws, layer, c)
    &&& if full_attention_at(layer) {
        attn_weights_fit(ws, layer, hidden, attn_dims_of(c))
    } else {
        &&& lin_tensors_fit(ws, layer, lin_dims_of(c))
        &&& lin_weights_fit(ws, layer, hidden, lin_dims_of(c))
    }
}

fn layer_named_ready(ws: &Weights, layer: usize, rest: &str, rows: usize, cols: usize) -> (r: bool)
    ensures
        r == named_fits(*ws, in_layer(layer as int, rest@), rows as int, cols as int),
{
    let name: String = layer_name(layer, rest);
    named_ready(ws, name.as_str(), rows, cols)
}

fn layer_norm_ready(ws: &Weights, layer: usize, rest: &str, n: usize) -> (r: bool)
    ensures
        r == norm_fits(*ws, in_layer(layer as int, rest@), n as int),
{
    let name: String = layer_name(layer, rest);
    norm_ready(ws, name.as_str(), n)
}

fn moe_ready(ws: &Weights, layer: usize, c: &ModelConfig) -> (r: bool)
    ensures
        r == moe_weights_fit(*ws, layer as int, *c),
{
    let (hidden, inter) = (c.hidden_dim, c.shared_intermediate);
    layer_norm_ready(ws, layer, ".post_attention_layernorm.weight", hidden) && layer_named_ready(
        ws,
        layer,
        ".mlp.gate",
        c.num_experts,
        hidden,
    ) && layer_named_ready(ws, layer, ".mlp.shared_expert.gate_proj", inter, hidden)
        && layer_named_ready(ws, layer, ".mlp.shared_expert.up_proj", inter, hidden)
        && layer_named_ready(ws, layer, ".mlp.shared_expert_gate", 1, hidden) && layer_named_ready(
        ws,
        layer,
        ".mlp.shared_expert.down_proj",
        hidden,
        inter,
    )
}

fn lin_ready(ws: &Weights, layer: usize, hidden: usize, d: &LinDims) -> (r: bool)
    requires
        lin_sizes_fit(*d),
    ensures
        r == (lin_tensors_fit(*ws, layer as int, *d) && lin_weights_fit(
            *ws,
            layer as int,
            hidden as int,
            *d,
        )),
{
    let rates: String = layer_name(layer, ".linear_attn.A_log");
    let rates_ok: bool = match ws.get_tensor_f32(rates.as_str()) {
        Some(s) => d.num_v_heads <= s.len(),
        None => true,
    };
    let value_dim: usize = d.total_value / d.num_v_heads;
    rates_ok && layer_norm_ready(ws, layer, ".linear_attn.dt_bias", d.num_v_heads)
        && layer_norm_ready(ws, layer, ".linear_attn.conv1d.weight", d.qkv_dim * 4)
        && layer_norm_ready(ws, layer, ".linear_attn.norm.weight", value_dim) && layer_named_ready(
        ws,
        layer,
        ".linear_attn.in_proj_qkv",
        d.qkv_dim,
        hidden,
    ) && layer_named_ready(ws, layer, ".linear_attn.in_proj_z", d.total_value, hidden)
        && layer_named_ready(ws, layer, ".linear_attn.in_proj_b", d.num_v_heads, hidden)
        && layer_named_ready(ws, layer, ".linear_attn.in_proj_a", d.num_v_heads, hidden)
        && layer_named_ready(ws, layer, ".linear_attn.out_proj", hidden, d.total_value)
}

/// Whether the tensors of a layer have the sizes that the model asks for.
pub fn layer_ready(ws: &Weights, layer: usize, c: &ModelConfig) -> (r: bool)
    requires
        sizes_fit(*c),
    ensures
        r == layer_fits(*ws, layer as int, *c),
{
    if !layer_norm_ready(ws, layer, ".input_layernorm.weight", c.hidden_dim) || !moe_ready(
        ws,
        layer,
        c,
    ) {
        return false;
    }
    if is_full_attention(layer) {
        let (h, k, n) = (c.num_attn_heads, c.num_kv_heads, c.head_dim);
        assert(h * (2 * n) == 2 * (h * n) && 0 <= h * n && 0 <= k * n) by (nonlinear_arith);
        let q: usize = h * n;
        let kv: usize = k * n;
        layer_named_ready(ws, layer, ".self_attn.q_proj", 2 * q, c.hidden_dim) && layer_named_ready(
            ws,
            layer,
            ".self_attn.k_proj",
            kv,
            c.hidden_dim,
        ) && layer_named_ready(ws, layer, ".self_attn.v_proj", kv, c.hidden_dim)
            && layer_named_ready(ws, layer, ".self_attn.o_proj", c.hidden_dim, q)
    } else {
        lin_ready(ws, layer, c.hidden_dim, &lin_dims(c))
    }
}

/// Whether a token can be looked up.
pub fn embed_ready(ws: &Weights, token: usize, hidden: usize) -> (r: bool)
    ensures
        r == embed_fits(*ws, token as int, hidden as int),
{
    match get_matrix(ws, "model.embed_tokens") {
        None => true,
        Some(m) => {
            let ws_len: usize = ws.shape_len("model.embed_tokens.weight");
            let ss_len: usize = ws.shape_len("model.embed_tokens.scales");
            if ws_len < 2 || ss_len < 2 {
                return false;
            }
            let words: usize = ws.shape_entry("model.embed_tokens.weight", 1);
            let groups: usize = ws.shape_entry("model.embed_tokens.scales", 1);
            if groups == 0 || !product_within(token, words, m.w.len()) || !product_within(
                token,
                groups,
                m.s.len(),
            ) || !product_within(token, groups, m.b.len()) {
                return false;
            }
            let size: usize = hidden / groups;
            proof {
                lemma_used(hidden as int, groups as int);
            }
            product_within(groups, size / 8, m.w.len() - token * words) && groups <= m.s.len()
                - token * groups && groups <= m.b.len() - token * groups && rows_within(
                hidden,
                groups,
                size,
                size / 8 * 8,
            )
        },
    }
}

/// The final norm and the matrix of the logits, where they are there, have the right sizes.
pub open spec fn head_fits(ws: Weights, c: ModelConfig) -> bool {
    &&& norm_fits(ws, "model.norm.weight"@, c.hidden_dim as int)
    &&& named_fits(ws, "lm_head"@, c.vocab_size as int, c.hidden_dim as int)
}

/// Whether the final norm and the matrix of the logits have the right sizes.
pub fn head_ready(ws: &Weights, c: &ModelConfig) -> (r: bool)
    ensures
        r == head_fits(*ws, *c),
{
    norm_ready(ws, "model.norm.weight", c.hidden_dim) && named_ready(
        ws,
        "lm_head",
        c.vocab_size,
        c.hidden_dim,
    )
}

/// What a layer remembers after `n` tokens, as far as its room goes.
pub open spec fn has_room(c: ModelConfig, layer: int, s: LayerState, n: int) -> bool {
    match s {
        LayerState::FullAttention(kv) => {
            &&& full_attention_at(layer)
            &&& kv.k_cache@.len() == 4096 * (c.num_kv_heads * c.head_dim)
            &&& kv.v_cache@.len() == kv.k_cache@.len()
            &&& kv.len == n
        },
        LayerState::LinearAttention(st) => {
            let d = lin_dims_of(c);
            &&& !full_attention_at(layer)
            &&& st.conv_state@.len() == 3 * d.qkv_dim
            &&& st.ssm_state@.len() == d.num_v_heads * (d.value_dim() * d.key_dim())
        },
    }
}

/// The heads of full attention find keys and values when `n` tokens are in the cache. Where the
/// key heads do not divide the query heads, the last heads look behind the last token, so that not
/// every token that the cache has room for can run.
pub open spec fn tokens_fit(c: ModelConfig, n: int) -> bool {
    heads_fit(attn_dims_of(c), 4096 * (c.num_kv_heads * c.head_dim), n)
}

/// Whether full attention takes one more token after `len` tokens.
pub fn token_ready(c: &ModelConfig, len: usize) -> (r: bool)
    requires
        sizes_fit(*c),
    ensures
        r == (len < 4096 && tokens_fit(*c, len + 1)),
{
    if len >= MAX_SEQ {
        return false;
    }
    let (nq, nkv, hd) = (c.num_attn_heads, c.num_kv_heads, c.head_dim);
    if nq == 0 {
        return true;
    }
    let kv_dim: usize = nkv * hd;
    proof {
        vstd::arithmetic::div_mod::lemma_div_non_zero(nq as int, nkv as int);
    }
    let per: usize = nq / nkv;
    let last: usize = (nq - 1) / per;
    proof {
        vstd::arithmetic::div_mod::lemma_fundamental_div_mod(nq - 1, per as int);
        assert(last < nq) by (nonlinear_arith)
            requires
                nq - 1 == per * last + (nq - 1) as int % per as int,
                (nq - 1) as int % per as int >= 0,
                per >= 1,
                nq >= 1,
        ;
        assert(0 <= last * hd && last * hd + hd <= nq * (2 * hd)) by (nonlinear_arith)
            requires
                0 <= last < nq,
                0 <= hd,
        ;
        assert(0 <= len * kv_dim <= 4096 * kv_dim) by (nonlinear_arith)
            requires
                0 <= len <= 4096,
                0 <= kv_dim,
        ;
        assert(kv_head(nq - 1, nq as int, nkv as int) == last);
        assert forall|h: int| 0 <= h < nq implies #[trigger] kv_head(h, nq as int, nkv as int) * hd
            <= last * hd by {
            let kh = kv_head(h, nq as int, nkv as int);
            vstd::arithmetic::div_mod::lemma_div_is_ordered(h, nq - 1, per as int);
            assert(kh * hd <= last * hd) by (nonlinear_arith)
                requires
                    kh <= last,
                    0 <= hd,
            ;
        }
    }
    last * hd + hd <= MAX_SEQ * kv_dim - len * kv_dim
}

/// A layer of a model whose sizes and tensors fit can run as long as fewer tokens than the cache
/// has room for have gone through it.
pub proof fn law_layer_can_run(
    ws: Weights,
    layer: int,
    c: ModelConfig,
    s: LayerState,
    n: int,
    experts: Seq<Option<Vec<u8>>>,
)
    requires
        sizes_fit(c),
        layer_fits(ws, layer, c),
        has_room(c, layer, s, n),
        0 <= n < 4096,
        full_attention_at(layer) ==> tokens_fit(c, n + 1),
        whole_reads(experts, c.expert_size_4bit as int),
    ensures
        attention_fits(ws, layer, c, s),
        block_fits(ws, layer, c, experts),
{
    match s {
        LayerState::FullAttention(kv) => {
            let (k, h) = (c.num_kv_heads as int, c.head_dim as int);
            assert(0 <= k * h) by (nonlinear_arith)
                requires
                    0 <= k,
                    0 <= h,
            ;
            law_cache_has_room(attn_dims_of(c), kv, 4096);
        },
        LayerState::LinearAttention(_) => {},
    }
}

/// A layer that has seen no token has room.
pub proof fn law_fresh_layer_has_room(c: ModelConfig, layer: int, s: LayerState)
    requires
        sizes_fit(c),
        fresh_layer_state(c, layer, s),
    ensures
        has_room(c, layer, s, 0),
{
    if let LayerState::LinearAttention(st) = s {
        law_fresh_state_fits(st, lin_dims_of(c));
    }
}

/// A layer that runs remembers one token more and keeps its room. So a model that passes the
/// checks runs every prompt and answer up to the room of its caches.
pub proof fn law_layer_keeps_room(
    c: ModelConfig,
    layer: int,
    before: LayerState,
    after: LayerState,
    n: int,
)
    requires
        has_room(c, layer, before, n),
        room_kept(layer, before, after),
    ensures
        has_room(c, layer, after, n + 1),
{
}

/// The cache of a layer after `n` tokens, as far as its room goes.
pub open spec fn cache_has_room(c: ModelConfig, layer: int, cache: Cache, n: int) -> bool {
    &&& 0 <= layer < cache.kv@.len()
    &&& layer < cache.lin@.len()
    &&& if full_attention_at(layer) {
        cache.kv@[layer] matches Some(kv) && has_room(c, layer, LayerState::FullAttention(kv), n)
    } else {
        cache.lin@[layer] matches Some(st) && has_room(
            c,
            layer,
            LayerState::LinearAttention(st),
            n,
        )
    }
}

/// A layer of the reference engine, of a model whose sizes and tensors fit, can run as long as
/// fewer tokens than the cache has room for have gone through it.
pub proof fn law_reference_layer_can_run(
    ws: Weights,
    layer: int,
    c: ModelConfig,
    cache: Cache,
    n: int,
    experts: Seq<Option<Vec<u8>>>,
)
    requires
        sizes_fit(c),
        layer_fits(ws, layer, c),
        cache_has_room(c, layer, cache, n),
        0 <= n < 4096,
        full_attention_at(layer) ==> tokens_fit(c, n + 1),
        whole_reads(experts, c.expert_size_4bit as int),
    ensures
        reference_fits(ws, layer, c, cache),
        block_fits(ws, layer, c, experts),
{
    if full_attention_at(layer) {
        let s = LayerState::FullAttention(cache.kv@[layer]->0);
        law_layer_can_run(ws, layer, c, s, n, experts);
    } else {
        let s = LayerState::LinearAttention(cache.lin@[layer]->0);
        law_layer_can_run(ws, layer, c, s, n, experts);
    }
}

/// A layer of the reference engine that runs remembers one token more and keeps its room, and the
/// other layers keep theirs.
pub proof fn law_reference_layer_keeps_room(
    c: ModelConfig,
    layer: int,
    other: int,
    before: Cache,
    after: Cache,
    n: int,
    m: int,
)
    requires
        cache_has_room(c, layer, before, n),
        cache_has_room(c, other, before, m),
        other != layer,
        cache_room_kept(layer, before, after),
        other_layers_stay(before, after, layer),
    ensures
        cache_has_room(c, layer, after, n + 1),
        cache_has_room(c, other, after, m),
{
}

/// Caches that have seen no token have room in every layer.
pub proof fn law_fresh_cache_has_room(c: ModelConfig, layer: int, cache: Cache)
    requires
        sizes_fit(c),
        0 <= layer < c.num_layers,
        cache.kv@.len() == c.num_layers,
        cache.lin@.len() == c.num_layers,
        fresh_layer(c, layer, cache.kv@[layer], cache.lin@[layer]),
    ensures
        cache_has_room(c, layer, cache, 0),
{
    if full_attention_at(layer) {
        law_fresh_layer_has_room(c, layer, LayerState::FullAttention(cache.kv@[layer]->0));
    } else {
        law_fresh_layer_has_room(c, layer, LayerState::LinearAttention(cache.lin@[layer]->0));
    }
}

/// Caches that were reset have room as new ones do, and a linear layer is as new.
pub proof fn law_reset_cache_has_room(
    c: ModelConfig,
    layer: int,
    before: Cache,
    after: Cache,
    n: int,
)
    requires
        sizes_fit(c),
        cache_has_room(c, layer, before, n),
        after.kv@.len() == before.kv@.len(),
        after.lin@.len() == before.lin@.len(),
        reset_kv(before.kv@[layer], after.kv@[layer]),
        reset_lin(before.lin@[layer], after.lin@[layer]),
    ensures
        cache_has_room(c, layer, after, 0),
        !full_attention_at(layer) ==> fresh_state(
            after.lin@[layer]->0,
            c.linear_num_v_heads as int,
            lin_dims_of(c).key_dim(),
            lin_dims_of(c).value_dim(),
            c.linear_conv_dim as int,
        ),
{
    let d = lin_dims_of(c);
    let (h, v, k) = (d.num_v_heads as int, d.value_dim(), d.key_dim());
    assert(h * v * k == h * (v * k)) by (nonlinear_arith);
}

/// The machine can address the caches of a model whose sizes fit.
pub proof fn law_caches_can_be_made(c: ModelConfig)
    requires
        sizes_fit(c),
    ensures
        cache_fits(c),
{
    let d = lin_dims_of(c);
    let (n, v, k) = (d.num_v_heads as int, d.value_dim(), d.key_dim());
    assert(n * v * k == n * (v * k)) by (nonlinear_arith);
    lemma_used(d.total_value as int, n);
    assert(n * v == v * n) by (nonlinear_arith);
}

/// A packed matrix of whole groups: half a byte for each number, and two bytes for the scale and
/// for the bias of every sixty-four numbers.
pub open spec fn packed_sizes(w: int, s: int, b: int, rows: int, cols: int) -> bool {
    &&& cols % 64 == 0
    &&& w == rows * (cols / 2)
    &&& s == rows * (cols / 64) * 2
    &&& b == rows * (cols / 64) * 2
}

proof fn lemma_packed_sizes(w: int, s: int, b: int, rows: int, cols: int)
    requires
        0 <= rows,
        0 <= cols,
        packed_sizes(w, s, b, rows, cols),
    ensures
        table_fits(w / 4, s / 2, b / 2, rows, cols, 64),
{
    let g = cols / 64;
    assert(cols == 64 * g && cols / 8 == 8 * g && cols / 2 == 32 * g);
    assert(rows * (32 * g) == 4 * (rows * (8 * g))) by (nonlinear_arith);
    assert(w / 4 == rows * (8 * g));
    assert((rows - 1) * (8 * g) + 8 * g == rows * (8 * g)) by (nonlinear_arith);
    assert(cols / 64 * (64int / 8) == 8 * g);
    assert(s / 2 == rows * g && b / 2 == rows * g);
}

/// A model of the usual make fits: there are no more key heads than query heads, an even number of
/// each head is turned, the linear key heads divide the value heads and both divide their vectors,
/// the convolution covers just queries, keys and values, and the matrices of an expert have their
/// exact sizes and lie within it. Nothing else is asked, but that the machine can count and address
/// it.
pub proof fn law_usual_sizes_fit(c: ModelConfig)
    requires
        c.num_experts > 0 ==> c.num_experts_per_tok > 0,
        0 < c.num_kv_heads <= c.num_attn_heads,
        c.rotary_dim % 2 == 0,
        c.rotary_dim <= c.head_dim,
        0 < c.linear_num_k_heads <= c.linear_num_v_heads,
        c.linear_num_v_heads as int % c.linear_num_k_heads as int == 0,
        c.linear_total_key as int % c.linear_num_k_heads as int == 0,
        c.linear_total_value as int % c.linear_num_v_heads as int == 0,
        c.linear_conv_dim == 2 * c.linear_total_key + c.linear_total_value,
        ({
            let (l, size) = (c.expert_layout_4bit, c.expert_size_4bit);
            let (hidden, inter) = (c.hidden_dim as int, c.moe_intermediate as int);
            &&& l.gate_w_off + l.gate_w_size <= size
            &&& l.gate_s_off + l.gate_s_size <= size
            &&& l.gate_b_off + l.gate_b_size <= size
            &&& l.up_w_off + l.up_w_size <= size
            &&& l.up_s_off + l.up_s_size <= size
            &&& l.up_b_off + l.up_b_size <= size
            &&& l.down_w_off + l.down_w_size <= size
            &&& l.down_s_off + l.down_s_size <= size
            &&& l.down_b_off + l.down_b_size <= size
            &&& packed_sizes(
                l.gate_w_size as int,
                l.gate_s_size as int,
                l.gate_b_size as int,
                inter,
                hidden,
            )
            &&& packed_sizes(
                l.up_w_size as int,
                l.up_s_size as int,
                l.up_b_size as int,
                inter,
                hidden,
            )
            &&& packed_sizes(
                l.down_w_size as int,
                l.down_s_size as int,
                l.down_b_size as int,
                hidden,
                inter,
            )
        }),
        c.hidden_dim <= i64::MAX,
        c.head_dim <= i64::MAX,
        c.num_experts_per_tok <= usize::MAX / 2 - 1,
        c.num_attn_heads * (2 * c.head_dim) <= usize::MAX,
        4096 * (c.num_kv_heads * c.head_dim) <= usize::MAX,
        c.linear_total_key <= i64::MAX,
        c.linear_total_value <= i64::MAX,
        4 * c.linear_conv_dim <= usize::MAX,
        c.linear_total_value * (c.linear_total_key as int / c.linear_num_k_heads as int)
            <= usize::MAX,
    ensures
        sizes_fit(c),
{
    let l = c.expert_layout_4bit;
    let (hidden, inter) = (c.hidden_dim as int, c.moe_intermediate as int);
    lemma_packed_sizes(
        l.gate_w_size as int,
        l.gate_s_size as int,
        l.gate_b_size as int,
        inter,
        hidden,
    );
    lemma_packed_sizes(
        l.up_w_size as int,
        l.up_s_size as int,
        l.up_b_size as int,
        inter,
        hidden,
    );
    lemma_packed_sizes(
        l.down_w_size as int,
        l.down_s_size as int,
        l.down_b_size as int,
        hidden,
        inter,
    );
    let d = lin_dims_of(c);
    let (nk, nv, tk, tv) = (
        d.num_k_heads as int,
        d.num_v_heads as int,
        d.total_key as int,
        d.total_value as int,
    );
    let (kd, vd) = (d.key_dim(), d.value_dim());
    vstd::arithmetic::div_mod::lemma_fundamental_div_mod(tk, nk);
    vstd::arithmetic::div_mod::lemma_fundamental_div_mod(tv, nv);
    assert(nv * (vd * kd) == tv * kd) by (nonlinear_arith)
        requires
            tv == nv * vd,
    ;
    assert(0 <= kd) by {
        vstd::arithmetic::div_mod::lemma_div_pos_is_pos(tk, nk);
    }
    assert forall|vh: int| 0 <= vh < nv implies #[trigger] d.key_head(vh) * kd + kd <= tk by {
        law_key_heads(d, vh, 0);
        let j = d.key_head(vh);
        assert(j * kd + kd <= nk * kd) by (nonlinear_arith)
            requires
                j < nk,
                0 <= kd,
        ;
    }
}

/// A named matrix is missing, or has exactly the words, scales and biases of `rows` rows of `cols`
/// numbers.
pub open spec fn exact_matrix(ws: Weights, name: Seq<char>, rows: int, cols: int) -> bool {
    matrix_of(ws, name) matches Some(m) ==> {
        &&& m.w.len() == rows * (cols / 8)
        &&& m.s.len() == rows * (cols / 64)
        &&& m.b.len() == rows * (cols / 64)
    }
}

/// Named weights of a norm are missing, or there is one for each of `n` numbers.
pub open spec fn exact_norm(ws: Weights, name: Seq<char>, n: int) -> bool {
    u16s_of(ws, name) matches Some(w) ==> w.len() == n
}

proof fn lemma_exact(ws: Weights, name: Seq<char>, rows: int, cols: int)
    requires
        0 <= rows,
        0 <= cols,
        exact_matrix(ws, name, rows, cols),
    ensures
        named_fits(ws, name, rows, cols),
{
    let (w, g) = (cols / 8, cols / 64);
    assert((rows - 1) * w + w == rows * w) by (nonlinear_arith);
    assert(g * (64int / 8) <= w);
}

/// A layer whose matrices and norms, as far as they are there, have their exact sizes can run: the
/// projections of its attention and of its experts map the hidden vector to what they are for, and
/// back.
pub proof fn law_exact_layer_fits(ws: Weights, layer: int, c: ModelConfig)
    requires
        ({
            let hidden = c.hidden_dim as int;
            let at = "model.layers."@ + decimal(layer);
            let (heads, dim) = (c.num_attn_heads as int, c.head_dim as int);
            let kv = c.num_kv_heads * c.head_dim;
            let (values, v_heads) = (c.linear_total_value as int, c.linear_num_v_heads as int);
            let (shared, conv) = (c.shared_intermediate as int, c.linear_conv_dim as int);
            &&& exact_norm(ws, at + ".input_layernorm.weight"@, hidden)
            &&& exact_norm(ws, at + ".post_attention_layernorm.weight"@, hidden)
            &&& exact_matrix(ws, at + ".mlp.gate"@, c.num_experts as int, hidden)
            &&& exact_matrix(ws, at + ".mlp.shared_expert.gate_proj"@, shared, hidden)
            &&& exact_matrix(ws, at + ".mlp.shared_expert.up_proj"@, shared, hidden)
            &&& exact_matrix(ws, at + ".mlp.shared_expert_gate"@, 1, hidden)
            &&& exact_matrix(ws, at + ".mlp.shared_expert.down_proj"@, hidden, shared)
            &&& layer % 4 == 3 ==> {
                &&& exact_matrix(ws, at + ".self_attn.q_proj"@, heads * (2 * dim), hidden)
                &&& exact_matrix(ws, at + ".self_attn.k_proj"@, kv, hidden)
                &&& exact_matrix(ws, at + ".self_attn.v_proj"@, kv, hidden)
                &&& exact_matrix(ws, at + ".self_attn.o_proj"@, hidden, heads * dim)
            }
            &&& layer % 4 != 3 ==> {
                &&& exact_matrix(ws, at + ".linear_attn.in_proj_qkv"@, conv, hidden)
                &&& exact_matrix(ws, at + ".linear_attn.in_proj_z"@, values, hidden)
                &&& exact_matrix(ws, at + ".linear_attn.in_proj_b"@, v_heads, hidden)
                &&& exact_matrix(ws, at + ".linear_attn.in_proj_a"@, v_heads, hidden)
                &&& exact_matrix(ws, at + ".linear_attn.out_proj"@, hidden, values)
                &&& exact_norm(ws, at + ".linear_attn.dt_bias"@, v_heads)
                &&& exact_norm(ws, at + ".linear_attn.conv1d.weight"@, 4 * conv)
                &&& exact_norm(ws, at + ".linear_attn.norm.weight"@, values / v_heads)
                &&& f32s_of(ws, at + ".linear_attn.A_log"@) matches Some(s) ==> s.len() == v_heads
            }
        }),
    ensures
        layer_fits(ws, layer, c),
{
    let hidden = c.hidden_dim as int;
    let (heads, dim) = (c.num_attn_heads as int, c.head_dim as int);
    let kv = c.num_kv_heads * c.head_dim;
    let (values, v_heads) = (c.linear_total_value as int, c.linear_num_v_heads as int);
    let (shared, conv) = (c.shared_intermediate as int, c.linear_conv_dim as int);
    assert(0 <= kv && 0 <= heads * dim && 0 <= heads * (2 * dim)) by (nonlinear_arith)
        requires
            kv == c.num_kv_heads * c.head_dim,
            0 <= heads,
            0 <= dim,
    ;
    lemma_exact(ws, in_layer(layer, ".mlp.gate"@), c.num_experts as int, hidden);
    lemma_exact(ws, in_layer(layer, ".mlp.shared_expert.gate_proj"@), shared, hidden);
    lemma_exact(ws, in_layer(layer, ".mlp.shared_expert.up_proj"@), shared, hidden);
    lemma_exact(ws, in_layer(layer, ".mlp.shared_expert_gate"@), 1, hidden);
    lemma_exact(ws, in_layer(layer, ".mlp.shared_expert.down_proj"@), hidden, shared);
    if layer % 4 == 3 {
        lemma_exact(ws, in_layer(layer, ".self_attn.q_proj"@), heads * (2 * dim), hidden);
        lemma_exact(ws, in_layer(layer, ".self_attn.k_proj"@), kv, hidden);
        lemma_exact(ws, in_layer(layer, ".self_attn.v_proj"@), kv, hidden);
        lemma_exact(ws, in_layer(layer, ".self_attn.o_proj"@), hidden, heads * dim);
    } else {
        lemma_exact(ws, in_layer(layer, ".linear_attn.in_proj_qkv"@), conv, hidden);
        lemma_exact(ws, in_layer(layer, ".linear_attn.in_proj_z"@), values, hidden);
        lemma_exact(ws, in_layer(layer, ".linear_attn.in_proj_b"@), v_heads, hidden);
        lemma_exact(ws, in_layer(layer, ".linear_attn.in_proj_a"@), v_heads, hidden);
        lemma_exact(ws, in_layer(layer, ".linear_attn.out_proj"@), hidden, values);
    }
}

/// The two ends of a model whose matrices and norm, as far as they are there, have their exact
/// sizes can run: every row of the embedding matrix can be looked up, and the logits can be
/// computed.
pub proof fn law_exact_ends_fit(ws: Weights, c: ModelConfig, rows: int, token: int)
    requires
        0 <= token < rows,
        c.hidden_dim as int % 64 == 0,
        c.hidden_dim > 0,
        exact_norm(ws, "model.norm.weight"@, c.hidden_dim as int),
        exact_matrix(ws, "lm_head"@, c.vocab_size as int, c.hidden_dim as int),
        exact_matrix(ws, "model.embed_tokens"@, rows, c.hidden_dim as int),
        shape_of(ws, "model.embed_tokens.weight"@) matches Some(a) && a.len() == 2 && a[0] == rows
            && a[1] == c.hidden_dim as int / 8,
        shape_of(ws, "model.embed_tokens.scales"@) matches Some(b) && b.len() == 2 && b[0] == rows
            && b[1] == c.hidden_dim as int / 64,
    ensures
        head_fits(ws, c),
        embed_fits(ws, token, c.hidden_dim as int),
{
    let hidden = c.hidden_dim as int;
    lemma_exact(ws, "lm_head"@, c.vocab_size as int, hidden);
    let (w, g) = (hidden / 8, hidden / 64);
    lemma_cell(token, rows, w);
    lemma_cell(token, rows, g);
    assert(hidden == 64 * g && w == 8 * g);
    assert(hidden / g == 64) by (nonlinear_arith)
        requires
            hidden == 64 * g,
            g > 0,
    ;
    assert(embed_words(ws) == w && embed_groups(ws) == g);
    if matrix_of(ws, "model.embed_tokens"@) is Some {
        let m = matrix_of(ws, "model.embed_tokens"@)->0;
        assert(token * w + w <= m.w.len() && token * g + g <= m.s.len());
        assert(g * (64int / 8) == w);
        assert(rows_fit(hidden, g, 64, 64int / 8 * 8));
    }
}

} // verus!
