//! The sizes of a model.

use vstd::prelude::*;

verus! {

/// Where the parts of an expert lie in its bytes: offset and size of the words, scales and biases
/// of its three projections.
pub struct ExpertLayout {
    pub gate_w_off: usize,
    pub gate_w_size: usize,
    pub gate_s_off: usize,
    pub gate_s_size: usize,
    pub gate_b_off: usize,
    pub gate_b_size: usize,
    pub up_w_off: usize,
    pub up_w_size: usize,
    pub up_s_off: usize,
    pub up_s_size: usize,
    pub up_b_off: usize,
    pub up_b_size: usize,
    pub down_w_off: usize,
    pub down_w_size: usize,
    pub down_s_off: usize,
    pub down_s_size: usize,
    pub down_b_off: usize,
    pub down_b_size: usize,
}

/// The sizes of a model. The base of the rotary angles is given by the bits of a double-precision
/// number.
pub struct ModelConfig {
    pub hidden_dim: usize,
    pub num_layers: usize,
    pub vocab_size: usize,
    pub num_attn_heads: usize,
    pub num_kv_heads: usize,
    pub head_dim: usize,
    pub rotary_dim: usize,
    pub rope_theta: u64,
    pub num_experts: usize,
    pub num_experts_per_tok: usize,
    pub moe_intermediate: usize,
    pub shared_intermediate: usize,
    pub linear_num_k_heads: usize,
    pub linear_num_v_heads: usize,
    pub linear_total_key: usize,
    pub linear_total_value: usize,
    pub linear_conv_dim: usize,
    pub expert_size_4bit: usize,
    pub expert_layout_4bit: ExpertLayout,
}

/// A layer has full attention: every fourth one.
pub open spec fn full_attention_at(layer: int) -> bool {
    (layer + 1) % 4 == 0
}

/// Whether a layer has full attention.
pub fn is_full_attention(layer: usize) -> (r: bool)
    ensures
        r == full_attention_at(layer as int),
{
    layer % 4 == 3
}

/// Of every four layers the last has full attention.
pub proof fn law_full_attention(group: int, place: int)
    requires
        0 <= place < 4,
    ensures
        full_attention_at(4 * group + place) <==> place == 3,
{
}

} // verus!
