//! The model with reduced layers and experts, for tests.

use crate::constants::{FULL_ATTN_INTERVAL, agreement, compare_sizes, sizes};
use crate::int4::GROUP_SIZE;
use vstd::prelude::*;

verus! {

pub const HIDDEN_DIM: usize = 2048;

pub const NUM_LAYERS: usize = 4;

pub const NUM_ATTN_HEADS: usize = 16;

pub const NUM_KV_HEADS: usize = 2;

pub const HEAD_DIM: usize = 256;

pub const VOCAB_SIZE: usize = 248320;

pub const NUM_EXPERTS: usize = 4;

pub const NUM_EXPERTS_PER_TOK: usize = 4;

pub const MOE_INTERMEDIATE: usize = 512;

pub const SHARED_INTERMEDIATE: usize = 512;

pub const LINEAR_NUM_V_HEADS: usize = 32;

pub const LINEAR_NUM_K_HEADS: usize = 16;

pub const LINEAR_KEY_DIM: usize = 128;

pub const LINEAR_VALUE_DIM: usize = 128;

pub const LINEAR_TOTAL_KEY: usize = LINEAR_NUM_K_HEADS * LINEAR_KEY_DIM;

pub const LINEAR_TOTAL_VALUE: usize = LINEAR_NUM_V_HEADS * LINEAR_VALUE_DIM;

pub const LINEAR_CONV_DIM: usize = LINEAR_TOTAL_KEY * 2 + LINEAR_TOTAL_VALUE;

/// The base of the rotary angles, ten million, by the bits of the double-precision number.
pub const ROPE_THETA: u64 = 0x4163_12D0_0000_0000;

/// The numbers of a head that are turned: a quarter.
pub const ROTARY_DIM: usize = HEAD_DIM / 4;

pub const NUM_FULL_ATTN_LAYERS: usize = NUM_LAYERS / FULL_ATTN_INTERVAL;

pub const NUM_LINEAR_LAYERS: usize = NUM_LAYERS - NUM_FULL_ATTN_LAYERS;

/// Bytes of the packed weights of a projection.
pub const PROJ_W: usize = MOE_INTERMEDIATE * HIDDEN_DIM / 2;

/// Bytes of the scales of a projection with `MOE_INTERMEDIATE` rows, and of its biases.
pub const SCALE_BYTES: usize = MOE_INTERMEDIATE * (HIDDEN_DIM / GROUP_SIZE) * 2;

/// Bytes of the scales of a projection with `HIDDEN_DIM` rows, and of its biases.
pub const DOWN_SCALE_BYTES: usize = HIDDEN_DIM * (MOE_INTERMEDIATE / GROUP_SIZE) * 2;

pub const GATE_W_OFF: usize = 0;

pub const GATE_S_OFF: usize = PROJ_W;

pub const GATE_B_OFF: usize = PROJ_W + SCALE_BYTES;

pub const UP_W_OFF: usize = PROJ_W + 2 * SCALE_BYTES;

pub const UP_S_OFF: usize = UP_W_OFF + PROJ_W;

pub const UP_B_OFF: usize = UP_S_OFF + SCALE_BYTES;

pub const DOWN_W_OFF: usize = UP_B_OFF + SCALE_BYTES;

pub const DOWN_S_OFF: usize = DOWN_W_OFF + PROJ_W;

pub const DOWN_B_OFF: usize = DOWN_S_OFF + DOWN_SCALE_BYTES;

pub const EXPERT_SIZE_4BIT: usize = DOWN_B_OFF + DOWN_SCALE_BYTES;

pub const GATE_W_SIZE: usize = PROJ_W;

pub const GATE_S_SIZE: usize = SCALE_BYTES;

pub const GATE_B_SIZE: usize = SCALE_BYTES;

pub const UP_W_SIZE: usize = PROJ_W;

pub const UP_S_SIZE: usize = SCALE_BYTES;

pub const UP_B_SIZE: usize = SCALE_BYTES;

pub const DOWN_W_SIZE: usize = PROJ_W;

pub const DOWN_S_SIZE: usize = DOWN_SCALE_BYTES;

pub const DOWN_B_SIZE: usize = DOWN_SCALE_BYTES;

/// The sizes of this model that a configuration is compared with.
pub open spec fn model_sizes() -> Seq<int> {
    seq![
        HIDDEN_DIM as int,
        NUM_LAYERS as int,
        NUM_EXPERTS as int,
        NUM_EXPERTS_PER_TOK as int,
        MOE_INTERMEDIATE as int,
        SHARED_INTERMEDIATE as int,
        NUM_ATTN_HEADS as int,
        NUM_KV_HEADS as int,
        HEAD_DIM as int,
        VOCAB_SIZE as int,
        LINEAR_NUM_V_HEADS as int,
        LINEAR_NUM_K_HEADS as int,
        LINEAR_TOTAL_KEY as int,
        LINEAR_TOTAL_VALUE as int,
    ]
}

/// Compares a configuration with the sizes of this model. The error names every difference.
pub fn validate_config(
    hidden_dim: usize,
    num_layers: usize,
    num_experts: usize,
    num_experts_per_tok: usize,
    moe_intermediate: usize,
    shared_intermediate: usize,
    num_attn_heads: usize,
    num_kv_heads: usize,
    head_dim: usize,
    vocab_size: usize,
    linear_num_v_heads: usize,
    linear_num_k_heads: usize,
    linear_total_key: usize,
    linear_total_value: usize,
) -> (r: Result<(), String>)
    ensures
        agreement(
            seq![
                hidden_dim as int,
                num_layers as int,
                num_experts as int,
                num_experts_per_tok as int,
                moe_intermediate as int,
                shared_intermediate as int,
                num_attn_heads as int,
                num_kv_heads as int,
                head_dim as int,
                vocab_size as int,
                linear_num_v_heads as int,
                linear_num_k_heads as int,
                linear_total_key as int,
                linear_total_value as int,
            ],
            model_sizes(),
            r,
        ),
{
    let config: Vec<usize> =
        vec![
        hidden_dim,
        num_layers,
        num_experts,
        num_experts_per_tok,
        moe_intermediate,
        shared_intermediate,
        num_attn_heads,
        num_kv_heads,
        head_dim,
        vocab_size,
        linear_num_v_heads,
        linear_num_k_heads,
        linear_total_key,
        linear_total_value,
    ];
    let constants: Vec<usize> =
        vec![
        HIDDEN_DIM,
        NUM_LAYERS,
        NUM_EXPERTS,
        NUM_EXPERTS_PER_TOK,
        MOE_INTERMEDIATE,
        SHARED_INTERMEDIATE,
        NUM_ATTN_HEADS,
        NUM_KV_HEADS,
        HEAD_DIM,
        VOCAB_SIZE,
        LINEAR_NUM_V_HEADS,
        LINEAR_NUM_K_HEADS,
        LINEAR_TOTAL_KEY,
        LINEAR_TOTAL_VALUE,
    ];
    assert(sizes(constants@) =~= model_sizes());
    assert(sizes(config@) =~= seq![
        hidden_dim as int,
        num_layers as int,
        num_experts as int,
        num_experts_per_tok as int,
        moe_intermediate as int,
        shared_intermediate as int,
        num_attn_heads as int,
        num_kv_heads as int,
        head_dim as int,
        vocab_size as int,
        linear_num_v_heads as int,
        linear_num_k_heads as int,
        linear_total_key as int,
        linear_total_value as int,
    ]);
    compare_sizes(&config, &constants)
}

/// The parts of an expert lie one behind the other, without gaps, and fill the expert.
pub proof fn law_expert_layout()
    ensures
        GATE_W_OFF == 0,
        GATE_S_OFF == GATE_W_OFF + GATE_W_SIZE,
        GATE_B_OFF == GATE_S_OFF + GATE_S_SIZE,
        UP_W_OFF == GATE_B_OFF + GATE_B_SIZE,
        UP_S_OFF == UP_W_OFF + UP_W_SIZE,
        UP_B_OFF == UP_S_OFF + UP_S_SIZE,
        DOWN_W_OFF == UP_B_OFF + UP_B_SIZE,
        DOWN_S_OFF == DOWN_W_OFF + DOWN_W_SIZE,
        DOWN_B_OFF == DOWN_S_OFF + DOWN_S_SIZE,
        EXPERT_SIZE_4BIT == DOWN_B_OFF + DOWN_B_SIZE,
        EXPERT_SIZE_4BIT == 1769472,
{
}

} // verus!
