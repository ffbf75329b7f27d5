//! What a model remembers of the tokens so far.

use crate::config::{ModelConfig, full_attention_at, is_full_attention};
use crate::constants::{CONV_KERNEL_SIZE, MAX_SEQ};
use crate::float::F32;
use crate::math::{zero_seq, zeros};
use vstd::prelude::*;

verus! {

/// Keys and values of a layer with full attention, token after token.
pub struct FullAttnCache {
    pub k_cache: Vec<F32>,
    pub v_cache: Vec<F32>,
    pub len: usize,
}

/// Keys and values of a layer as sequences, and the number of tokens that they hold.
#[verifier::ext_equal]
pub struct Tokens {
    pub k: Seq<F32>,
    pub v: Seq<F32>,
    pub len: int,
}

impl View for FullAttnCache {
    type V = Tokens;

    open spec fn view(&self) -> Tokens {
        Tokens { k: self.k_cache@, v: self.v_cache@, len: self.len as int }
    }
}

impl FullAttnCache {
    /// An empty cache with room for `max_seq` tokens.
    pub fn new(max_seq: usize, kv_dim: usize) -> (r: Self)
        requires
            max_seq * kv_dim <= usize::MAX,
        ensures
            r.k_cache@ == zero_seq(max_seq * kv_dim),
            r.v_cache@ == zero_seq(max_seq * kv_dim),
            r.len == 0,
    {
        FullAttnCache {
            k_cache: zeros(max_seq * kv_dim),
            v_cache: zeros(max_seq * kv_dim),
            len: 0,
        }
    }

    /// Forgets all tokens; the room stays as it is.
    pub fn reset(&mut self)
        ensures
            final(self).len == 0,
            final(self).k_cache == old(self).k_cache,
            final(self).v_cache == old(self).v_cache,
    {
        self.len = 0;
    }
}

/// The state of a layer with linear attention: the last inputs of the convolution, and a matrix
/// for each value head.
pub struct LinearAttnState {
    pub conv_state: Vec<F32>,
    pub ssm_state: Vec<F32>,
}

/// The state of a layer with linear attention as sequences.
#[verifier::ext_equal]
pub struct Recurrence {
    pub conv: Seq<F32>,
    pub ssm: Seq<F32>,
}

impl View for LinearAttnState {
    type V = Recurrence;

    open spec fn view(&self) -> Recurrence {
        Recurrence { conv: self.conv_state@, ssm: self.ssm_state@ }
    }
}

/// A state of the given sizes in which all is zero.
pub open spec fn fresh_state(
    s: LinearAttnState,
    num_v_heads: int,
    key_dim: int,
    value_dim: int,
    qkv_dim: int,
) -> bool {
    &&& s.conv_state@ == zero_seq(3 * qkv_dim)
    &&& s.ssm_state@ == zero_seq(num_v_heads * value_dim * key_dim)
}

impl LinearAttnState {
    /// A state in which all is zero.
    pub fn new(num_v_heads: usize, key_dim: usize, value_dim: usize, qkv_dim: usize) -> (r: Self)
        requires
            3 * qkv_dim <= usize::MAX,
            num_v_heads * value_dim <= usize::MAX,
            num_v_heads * value_dim * key_dim <= usize::MAX,
        ensures
            fresh_state(
                r,
                num_v_heads as int,
                key_dim as int,
                value_dim as int,
                qkv_dim as int,
            ),
    {
        LinearAttnState {
            conv_state: zeros((CONV_KERNEL_SIZE - 1) * qkv_dim),
            ssm_state: zeros(num_v_heads * value_dim * key_dim),
        }
    }

    /// Sets all numbers to zero.
    pub fn reset(&mut self)
        ensures
            final(self).conv_state@ == zero_seq(old(self).conv_state@.len() as int),
            final(self).ssm_state@ == zero_seq(old(self).ssm_state@.len() as int),
    {
        self.conv_state = zeros(self.conv_state.len());
        self.ssm_state = zeros(self.ssm_state.len());
    }
}

/// The caches of all layers and the position of the next token.
pub struct Cache {
    pub pos: usize,
    pub kv: Vec<Option<FullAttnCache>>,
    pub lin: Vec<Option<LinearAttnState>>,
}

/// What the layers of a model remember, and the position of the next token.
#[verifier::ext_equal]
pub struct Memory {
    pub pos: int,
    pub kv: Seq<Option<Tokens>>,
    pub lin: Seq<Option<Recurrence>>,
}

/// What a layer's cache holds, where the layer has one.
pub open spec fn tokens_in(kv: Option<FullAttnCache>) -> Option<Tokens> {
    match kv {
        Some(k) => Some(k@),
        None => None,
    }
}

/// What a layer's state holds, where the layer has one.
pub open spec fn recurrence_in(lin: Option<LinearAttnState>) -> Option<Recurrence> {
    match lin {
        Some(s) => Some(s@),
        None => None,
    }
}

impl View for Cache {
    type V = Memory;

    open spec fn view(&self) -> Memory {
        Memory {
            pos: self.pos as int,
            kv: Seq::new(self.kv@.len(), |l: int| tokens_in(self.kv@[l])),
            lin: Seq::new(self.lin@.len(), |l: int| recurrence_in(self.lin@[l])),
        }
    }
}

/// The machine can address the caches of a model.
pub open spec fn cache_fits(c: ModelConfig) -> bool {
    let kv_dim = c.num_kv_heads * c.head_dim;
    &&& c.num_layers >= 4 ==> 4096 * kv_dim <= usize::MAX
    &&& c.num_layers > 0 ==> {
        let key_dim = c.linear_total_key as int / c.linear_num_k_heads as int;
        let value_dim = c.linear_total_value as int / c.linear_num_v_heads as int;
        &&& c.linear_num_k_heads > 0
        &&& c.linear_num_v_heads > 0
        &&& 3 * c.linear_conv_dim <= usize::MAX
        &&& c.linear_num_v_heads * value_dim <= usize::MAX
        &&& c.linear_num_v_heads * value_dim * key_dim <= usize::MAX
    }
}

/// The caches of one layer of a model that has seen no token.
pub open spec fn fresh_layer(
    c: ModelConfig,
    layer: int,
    kv: Option<FullAttnCache>,
    lin: Option<LinearAttnState>,
) -> bool {
    if full_attention_at(layer) {
        &&& lin is None
        &&& kv matches Some(k) && {
            &&& k.k_cache@ == zero_seq(4096 * (c.num_kv_heads * c.head_dim))
            &&& k.v_cache@ == zero_seq(4096 * (c.num_kv_heads * c.head_dim))
            &&& k.len == 0
        }
    } else {
        &&& kv is None
        &&& lin matches Some(s) && fresh_state(
            s,
            c.linear_num_v_heads as int,
            c.linear_total_key as int / c.linear_num_k_heads as int,
            c.linear_total_value as int / c.linear_num_v_heads as int,
            c.linear_conv_dim as int,
        )
    }
}

/// A layer's caches after a reset: no tokens, and states of zeros, in the same room.
pub open spec fn reset_kv(before: Option<FullAttnCache>, after: Option<FullAttnCache>) -> bool {
    match (before, after) {
        (None, None) => true,
        (Some(b), Some(a)) => a.len == 0 && a.k_cache == b.k_cache && a.v_cache == b.v_cache,
        _ => false,
    }
}

/// A layer's state after a reset.
pub open spec fn reset_lin(before: Option<LinearAttnState>, after: Option<LinearAttnState>) -> bool {
    match (before, after) {
        (None, None) => true,
        (Some(b), Some(a)) => {
            &&& a.conv_state@ == zero_seq(b.conv_state@.len() as int)
            &&& a.ssm_state@ == zero_seq(b.ssm_state@.len() as int)
        },
        _ => false,
    }
}

impl Cache {
    /// The caches of a model that has seen no token: keys and values for every fourth layer, a
    /// linear state for the others.
    pub fn new(config: &ModelConfig) -> (r: Self)
        requires
            cache_fits(*config),
        ensures
            r.pos == 0,
            r.kv@.len() == config.num_layers,
            r.lin@.len() == config.num_layers,
            forall|l: int|
                0 <= l < config.num_layers ==> fresh_layer(
                    *config,
                    l,
                    #[trigger] r.kv@[l],
                    r.lin@[l],
                ),
    {
        let mut kv: Vec<Option<FullAttnCache>> = Vec::new();
        let mut lin: Vec<Option<LinearAttnState>> = Vec::new();
        for layer in 0..config.num_layers
            invariant
                cache_fits(*config),
                kv@.len() == layer,
                lin@.len() == layer,
                forall|l: int|
                    0 <= l < layer ==> fresh_layer(*config, l, #[trigger] kv@[l], lin@[l]),
        {
            if is_full_attention(layer) {
                let kv_dim: usize = config.num_kv_heads * config.head_dim;
                kv.push(Some(FullAttnCache::new(MAX_SEQ, kv_dim)));
                lin.push(None);
            } else {
                kv.push(None);
                lin.push(
                    Some(
                        LinearAttnState::new(
                            config.linear_num_v_heads,
                            config.linear_total_key / config.linear_num_k_heads,
                            config.linear_total_value / config.linear_num_v_heads,
                            config.linear_conv_dim,
                        ),
                    ),
                );
            }
        }
        Cache { pos: 0, kv, lin }
    }

    /// Moves to the next position; what the layers remember stays.
    pub fn advance(&mut self)
        requires
            old(self).pos < usize::MAX,
        ensures
            final(self).pos == old(self).pos + 1,
            final(self).kv == old(self).kv,
            final(self).lin == old(self).lin,
    {
        self.pos = self.pos + 1;
    }

    /// Forgets all tokens.
    pub fn reset(&mut self)
        ensures
            final(self).pos == 0,
            final(self).kv@.len() == old(self).kv@.len(),
            final(self).lin@.len() == old(self).lin@.len(),
            forall|l: int|
                0 <= l < old(self).kv@.len() ==> reset_kv(
                    old(self).kv@[l],
                    #[trigger] final(self).kv@[l],
                ),
            forall|l: int|
                0 <= l < old(self).lin@.len() ==> reset_lin(
                    old(self).lin@[l],
                    #[trigger] final(self).lin@[l],
                ),
    {
        self.pos = 0;
        let ghost kv0 = self.kv@;
        let n: usize = self.kv.len();
        for i in 0..n
            invariant
                self.pos == 0,
                n == self.kv@.len() == kv0.len(),
                self.lin == old(self).lin,
                kv0 == old(self).kv@,
                forall|l: int| 0 <= l < i ==> reset_kv(kv0[l], #[trigger] self.kv@[l]),
                forall|l: int| i <= l < n ==> #[trigger] self.kv@[l] == kv0[l],
        {
            match &mut self.kv[i] {
                Some(c) => {
                    c.reset();
                },
                None => {},
            }
        }
        let ghost lin0 = self.lin@;
        let ghost kv1 = self.kv@;
        let m: usize = self.lin.len();
        for i in 0..m
            invariant
                self.pos == 0,
                m == self.lin@.len() == lin0.len(),
                self.kv@ == kv1,
                lin0 == old(self).lin@,
                forall|l: int| 0 <= l < i ==> reset_lin(lin0[l], #[trigger] self.lin@[l]),
                forall|l: int| i <= l < m ==> #[trigger] self.lin@[l] == lin0[l],
        {
            match &mut self.lin[i] {
                Some(s) => {
                    s.reset();
                },
                None => {},
            }
        }
    }
}

} // verus!
