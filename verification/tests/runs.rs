//! The order of work: generations, runs through the layers, device commands.

use moe_infer::attention::AttnDims;
use moe_infer::cache::LinearAttnState;
use moe_infer::config::{ExpertLayout, ModelConfig};
use moe_infer::device::{
    attention_pass, experts_pass, forget_newest, fusedexp_cmd1, linear_projection_pass,
    projection_name, recurrence_pass, router_pass, Command, LinearPlaces, Place, Projection, Slot,
};
use moe_infer::float::F32;
use moe_infer::generate::{
    GenAction, GenEvent, Generation, Run, RunAction, EOS_TOKEN_1, EOS_TOKEN_2,
};
use moe_infer::linear::LinDims;

/// Plays a generation: the tokens that come back, in order; what was sent and at which positions
/// tokens were run.
fn play(prompt: usize, max: usize, tokens: &[usize], fail_at: usize) -> (Vec<usize>, Vec<usize>, Generation) {
    let mut g = Generation::start(prompt, max);
    let (mut sent, mut ran) = (Vec::new(), Vec::new());
    let mut next = tokens.iter();
    for _ in 0..1000 {
        let event = match g.action {
            GenAction::RunPrompt(i) => {
                assert_eq!(i, g.pos);
                ran.push(g.pos);
                GenEvent::Ran
            }
            GenAction::Logits => GenEvent::Token(*next.next().unwrap()),
            GenAction::Emit(t) => {
                if sent.len() == fail_at {
                    GenEvent::Sent(false)
                } else {
                    sent.push(t);
                    GenEvent::Sent(true)
                }
            }
            GenAction::RunToken(_) | GenAction::RunLast(_) => {
                ran.push(g.pos);
                GenEvent::Ran
            }
            GenAction::Finish => break,
        };
        g.step(event);
    }
    (sent, ran, g)
}

#[test]
fn generation_ends_at_its_limit() {
    let (sent, ran, g) = play(3, 2, &[5, 6, 7], 99);
    assert_eq!(sent, vec![5, 6]);
    assert_eq!(ran, vec![0, 1, 2, 3, 4]);
    assert_eq!(g.gen_count, 2);
    assert_eq!(g.action, GenAction::Finish);
}

#[test]
fn generation_ends_at_an_end_token() {
    for end in [EOS_TOKEN_1, EOS_TOKEN_2] {
        let (sent, ran, g) = play(2, 10, &[5, end], 99);
        assert_eq!(sent, vec![5]);
        // The token that ends it still runs.
        assert_eq!(ran, vec![0, 1, 2, 3]);
        assert_eq!(g.gen_count, 1);
    }
}

#[test]
fn generation_ends_when_nobody_listens() {
    let (sent, ran, g) = play(1, 10, &[5, 6, 7], 1);
    assert_eq!(sent, vec![5]);
    assert_eq!(ran, vec![0, 1]);
    assert_eq!(g.gen_count, 1);
}

#[test]
fn generation_without_tokens() {
    let (sent, ran, g) = play(2, 0, &[5], 99);
    assert!(sent.is_empty());
    assert_eq!(ran, vec![0, 1]);
    let mut over = g;
    over.step(GenEvent::Token(4));
    assert_eq!(over.action, GenAction::Finish);
    assert_eq!((over.pos, over.gen_count), (g.pos, g.gen_count));
}

#[test]
fn run_goes_through_layers_in_order() {
    let mut r = Run::start(2, 6);
    let mut seen = Vec::new();
    while r.action != RunAction::Done {
        seen.push(r.action);
        r.step(false);
    }
    let mut want = Vec::new();
    for t in 0..2 {
        want.push(RunAction::Embed(t));
        for l in 0..6 {
            if l % 4 == 0 {
                want.push(RunAction::CheckSignal(l));
            }
            want.push(RunAction::Layer(l));
        }
        want.push(RunAction::Logits(t));
    }
    assert_eq!(seen, want);
    assert_eq!(Run::start(0, 6).action, RunAction::Done);
}

#[test]
fn run_stops_when_asked() {
    let mut r = Run::start(2, 6);
    while r.action != RunAction::CheckSignal(4) {
        r.step(false);
    }
    r.step(true);
    assert_eq!(r.action, RunAction::Interrupted);
    r.step(false);
    assert_eq!(r.action, RunAction::Interrupted);
}

#[test]
fn run_moves_on_by_one_for_each_token() {
    for stop in [None, Some(0), Some(3), Some(5)] {
        let mut r = Run::start(3, 6);
        let (mut moved, mut asked) = (0, 0);
        while r.action != RunAction::Done && r.action != RunAction::Interrupted {
            if matches!(r.action, RunAction::Logits(_)) {
                moved += 1;
            }
            let mut answer = false;
            if matches!(r.action, RunAction::CheckSignal(_)) {
                answer = Some(asked) == stop;
                asked += 1;
            }
            r.step(answer);
        }
        // Two questions for each token.
        assert_eq!(moved, stop.map_or(3, |q| q / 2));
        assert_eq!(r.token, moved);
    }
}

fn dims() -> LinDims {
    LinDims { num_k_heads: 2, num_v_heads: 4, total_key: 16, total_value: 64, qkv_dim: 96 }
}

fn scale() -> F32 {
    F32 { bits: 0.25f32.to_bits() }
}

#[test]
fn fused_layer() {
    let w = LinearPlaces { conv: Some(100), a_log: Some(200), dt_bias: None, norm: Some(300) };
    let p = fusedexp_cmd1(&dims(), 1000, 7, scale(), &w);
    assert_eq!(p.len(), 8);
    assert_eq!(p[0], linear_projection_pass(&dims(), 1000));
    assert_eq!(
        p[0][0],
        Command::MatVec {
            matrix: Projection::LinearQkv,
            x: Slot::Input,
            out: Slot::Batch(0),
            rows: 96,
            cols: 1000,
        }
    );
    assert_eq!(
        p[1],
        vec![Command::Convolve {
            state: Slot::ConvState(7),
            x: Slot::Batch(0),
            weight: Place { slot: Slot::Weights, offset: 100 },
            out: Slot::ConvOut,
            n: 96,
        }]
    );
    assert_eq!(
        p[2],
        vec![Command::NormQk {
            q: Place { slot: Slot::ConvOut, offset: 0 },
            k: Place { slot: Slot::ConvOut, offset: 64 },
            heads: 2,
            dim: 8,
            scale: scale(),
        }]
    );
    assert_eq!(
        p[3],
        vec![Command::DecayBeta {
            alpha: Slot::Batch(3),
            beta: Slot::Batch(2),
            a_log: Place { slot: Slot::Weights, offset: 200 },
            dt_bias: Place { slot: Slot::Batch(2), offset: 0 },
            decay: Slot::Decay,
            beta_gate: Slot::BetaGate,
            heads: 4,
        }]
    );
    assert_eq!(
        p[4],
        vec![Command::DeltaStep {
            state: Slot::DeltaState(7),
            q: Place { slot: Slot::ConvOut, offset: 0 },
            k: Place { slot: Slot::ConvOut, offset: 64 },
            v: Place { slot: Slot::ConvOut, offset: 128 },
            decay: Slot::Decay,
            beta_gate: Slot::BetaGate,
            out: Slot::DeltaOut,
            v_heads: 4,
            v_heads_per_k: 2,
            key_dim: 8,
            value_dim: 16,
        }]
    );
    assert_eq!(
        p[5],
        vec![Command::GatedNorm {
            x: Slot::DeltaOut,
            z: Slot::Batch(1),
            weight: Place { slot: Slot::Weights, offset: 300 },
            out: Slot::Gated,
            heads: 4,
            dim: 16,
        }]
    );
    assert_eq!(
        p[7],
        vec![Command::AddResidual {
            x: Slot::Projected,
            residual: Slot::Residual,
            out: Slot::Hidden,
            n: 1000,
            groups: 4,
            threads: 256,
        }]
    );
    let bare = LinearPlaces { conv: None, a_log: None, dt_bias: None, norm: None };
    let p = fusedexp_cmd1(&dims(), 1000, 7, scale(), &bare);
    assert_eq!(p.len(), 7);
    assert!(p[4].is_empty());
}

#[test]
fn host_forgets_the_newest_input() {
    let mut state = LinearAttnState::new(1, 1, 1, 2);
    state.conv_state = (1..=6).map(|i| F32 { bits: (i as f32).to_bits() }).collect();
    forget_newest(&mut state, 2);
    let got: Vec<f32> = state.conv_state.iter().map(|x| f32::from_bits(x.bits)).collect();
    assert_eq!(got, vec![3.0, 4.0, 5.0, 6.0, 0.0, 0.0]);
}

#[test]
fn recurrence_with_and_without_norm() {
    let (with, out) = recurrence_pass(&dims(), 3, scale(), true);
    assert_eq!((with.len(), out), (4, Slot::Gated));
    let (without, out) = recurrence_pass(&dims(), 3, scale(), false);
    assert_eq!((without.len(), out), (3, Slot::DeltaOut));
    assert_eq!(with[..3], without[..]);
}

fn layout() -> ExpertLayout {
    ExpertLayout {
        gate_w_off: 0,
        gate_w_size: 10,
        gate_s_off: 10,
        gate_s_size: 10,
        gate_b_off: 20,
        gate_b_size: 10,
        up_w_off: 30,
        up_w_size: 10,
        up_s_off: 40,
        up_s_size: 10,
        up_b_off: 50,
        up_b_size: 10,
        down_w_off: 60,
        down_w_size: 10,
        down_s_off: 70,
        down_s_size: 10,
        down_b_off: 80,
        down_b_size: 10,
    }
}

#[test]
fn experts_do_not_overwrite_each_other() {
    let p = experts_pass(3, &layout(), 64, 32);
    assert_eq!(p.len(), 12);
    for e in 0..3 {
        assert_eq!(
            p[4 * e + 3],
            Command::ExpertMatVec {
                expert: Slot::Expert(e),
                words: 60,
                scales: 70,
                biases: 80,
                x: Slot::ExpertAct,
                out: Slot::ExpertOut(e),
                rows: 64,
                cols: 32,
            }
        );
    }
    assert!(experts_pass(0, &layout(), 64, 32).is_empty());
}

#[test]
fn projections_of_other_layers() {
    let d = AttnDims {
        num_attn_heads: 4,
        num_kv_heads: 2,
        head_dim: 16,
        rotary_dim: 8,
        rope_theta: 0,
    };
    let p = attention_pass(&d, 64);
    assert_eq!(
        p[0],
        Command::MatVec {
            matrix: Projection::Query,
            x: Slot::Input,
            out: Slot::Batch(0),
            rows: 128,
            cols: 64,
        }
    );
    assert_eq!(p.len(), 3);
    let c = ModelConfig {
        hidden_dim: 64,
        num_layers: 4,
        vocab_size: 10,
        num_attn_heads: 4,
        num_kv_heads: 2,
        head_dim: 16,
        rotary_dim: 8,
        rope_theta: 0,
        num_experts: 5,
        num_experts_per_tok: 2,
        moe_intermediate: 64,
        shared_intermediate: 32,
        linear_num_k_heads: 2,
        linear_num_v_heads: 4,
        linear_total_key: 16,
        linear_total_value: 64,
        linear_conv_dim: 96,
        expert_size_4bit: 90,
        expert_layout_4bit: layout(),
    };
    let p = router_pass(&c);
    assert_eq!(
        p[3],
        Command::MatVec {
            matrix: Projection::SharedScore,
            x: Slot::Input,
            out: Slot::Batch(3),
            rows: 1,
            cols: 64,
        }
    );
    assert_eq!(projection_name(3, Projection::SharedDown), "model.layers.3.mlp.shared_expert.down_proj");
    assert_eq!(projection_name(0, Projection::LinearQkv), "model.layers.0.linear_attn.in_proj_qkv");
    assert_eq!(projection_name(5, Projection::Head), "lm_head");
}
