//! The two ends of the model: token embeddings and logits.

use crate::bf16::{bf16_to_f32, of_bf16};
use crate::constants::rms_norm_eps;
use crate::float::{
    Arith, F32, deterministic, fadd, fdiv, ffrom_int, fmul, fsqrt, fsum, one, zero,
};
use crate::grid::{lemma_cell, lemma_flat};
use crate::int4::{dequant_entry, dequant_groups, groups_fit};
use crate::math::{SumOrder, inv_rms, inv_rms_of, zero_seq};
use crate::weights::{
    Weights, cpu_dequant_matvec_4bit, get_matrix, matrix_of, named_fits, product, project,
    projected, shape_of, u16s_of,
};
use vstd::prelude::*;
use vstd::slice::slice_subrange;

verus! {

/// The name of the embedding matrix.
pub open spec fn embed_name() -> Seq<char> {
    "model.embed_tokens"@
}

/// Words of a row of the embedding matrix.
pub open spec fn embed_words(ws: Weights) -> int {
    shape_of(ws, "model.embed_tokens.weight"@)->0[1] as int
}

/// Groups of a row of the embedding matrix.
pub open spec fn embed_groups(ws: Weights) -> int {
    shape_of(ws, "model.embed_tokens.scales"@)->0[1] as int
}

/// What looking up a token needs of the embedding matrix.
pub open spec fn embed_fits(ws: Weights, token: int, hidden: int) -> bool {
    matrix_of(ws, embed_name()) matches Some(m) ==> {
        let (words, groups) = (embed_words(ws), embed_groups(ws));
        &&& shape_of(ws, "model.embed_tokens.weight"@) matches Some(a) && a.len() >= 2
        &&& shape_of(ws, "model.embed_tokens.scales"@) matches Some(b) && b.len() >= 2
        &&& groups > 0
        &&& token * words <= m.w.len()
        &&& token * groups <= m.s.len()
        &&& token * groups <= m.b.len()
        &&& groups_fit(
            m.w.len() - token * words,
            m.s.len() - token * groups,
            m.b.len() - token * groups,
            groups,
            hidden / groups,
            hidden,
        )
    }
}

/// The embedding of a token in a vector that held `old` before: numbers that no group covers stay,
/// and without the matrix all become zero.
pub open spec fn embedded<A: Arith>(ws: Weights, token: int, old_values: Seq<F32>) -> Seq<F32> {
    match matrix_of(ws, embed_name()) {
        None => zero_seq(old_values.len() as int),
        Some(m) => {
            let (words, groups) = (embed_words(ws), embed_groups(ws));
            let size = old_values.len() as int / groups;
            Seq::new(
                old_values.len(),
                |j: int|
                    if size > 0 && j / size < groups && j % size < size / 8 * 8 {
                        dequant_entry::<A>(
                            m.w.skip(token * words),
                            m.s.skip(token * groups),
                            m.b.skip(token * groups),
                            groups,
                            size,
                            j,
                        )
                    } else {
                        old_values[j]
                    },
            )
        },
    }
}

proof fn lemma_embed_names()
    ensures
        embed_name() + ".weight"@ == "model.embed_tokens.weight"@,
        embed_name() + ".scales"@ == "model.embed_tokens.scales"@,
{
    reveal_strlit("model.embed_tokens");
    reveal_strlit(".weight");
    reveal_strlit(".scales");
    reveal_strlit("model.embed_tokens.weight");
    reveal_strlit("model.embed_tokens.scales");
    assert(embed_name() + ".weight"@ =~= "model.embed_tokens.weight"@);
    assert(embed_name() + ".scales"@ =~= "model.embed_tokens.scales"@);
}

/// Writes the embedding of a token over a vector.
pub fn embed_lookup<A: Arith>(ws: &Weights, token_id: usize, out: &mut Vec<F32>)
    requires
        embed_fits(*ws, token_id as int, old(out)@.len() as int),
    ensures
        final(out)@.len() == old(out)@.len(),
        deterministic::<A>() ==> final(out)@ == embedded::<A>(*ws, token_id as int, old(out)@),
{
    let hidden_dim: usize = out.len();
    let ghost before = out@;
    proof {
        lemma_embed_names();
    }
    match get_matrix(ws, "model.embed_tokens") {
        None => {
            for j in 0..hidden_dim
                invariant
                    hidden_dim == out@.len(),
                    forall|k: int| 0 <= k < j ==> #[trigger] out@[k] == zero(),
            {
                out.set(j, zero());
            }
        },
        Some(m) => {
            let packed_cols: usize = ws.shape_entry("model.embed_tokens.weight", 1);
            let num_groups: usize = ws.shape_entry("model.embed_tokens.scales", 1);
            let group_size: usize = hidden_dim / num_groups;
            proof {
                assert(m.w.len() == m.w@.len() && m.s.len() == m.s@.len());
                assert(token_id * packed_cols >= 0 && token_id * num_groups >= 0)
                    by (nonlinear_arith);
            }
            let w_row: &[u32] = slice_subrange(m.w, token_id * packed_cols, m.w.len());
            let s_row: &[u16] = slice_subrange(m.s, token_id * num_groups, m.s.len());
            let b_row: &[u16] = slice_subrange(m.b, token_id * num_groups, m.b.len());
            let row: Vec<F32> = dequant_groups::<A>(
                w_row,
                s_row,
                b_row,
                num_groups,
                group_size,
                hidden_dim,
            );
            assert(w_row@ =~= m.w@.skip(token_id * packed_cols));
            assert(s_row@ =~= m.s@.skip(token_id * num_groups));
            assert(b_row@ =~= m.b@.skip(token_id * num_groups));
            for j in 0..hidden_dim
                invariant
                    hidden_dim == out@.len() == before.len() == row@.len(),
                    forall|k: int|
                        0 <= k < hidden_dim ==> #[trigger] out@[k] == if k < j && group_size > 0
                            && k / (group_size as int) < num_groups && k % (group_size as int)
                            < group_size / 8 * 8 {
                            row@[k]
                        } else {
                            before[k]
                        },
            {
                if group_size > 0 && j / group_size < num_groups && j % group_size < group_size / 8
                    * 8 {
                    let v: F32 = row[j];
                    out.set(j, v);
                }
            }
            proof {
                if deterministic::<A>() {
                    assert(out@ =~= embedded::<A>(*ws, token_id as int, before));
                }
            }
        },
    }
}

/// The logits of a hidden vector; without a matrix, the first logit becomes one and the others
/// stay.
pub fn lm_head_forward<A: Arith>(ws: &Weights, hidden: &[F32], logits: Vec<F32>) -> (r: Vec<F32>)
    requires
        matrix_of(*ws, "lm_head"@) is None ==> logits@.len() > 0,
        named_fits(*ws, "lm_head"@, logits@.len() as int, hidden@.len() as int),
    ensures
        r@.len() == logits@.len(),
        deterministic::<A>() ==> r@ == match matrix_of(*ws, "lm_head"@) {
            Some(m) => product::<A>(m, hidden@, logits@.len() as int),
            None => logits@.update(0, one()),
        },
{
    match get_matrix(ws, "lm_head") {
        Some(m) => cpu_dequant_matvec_4bit::<A>(&m, hidden, logits.len()),
        None => {
            let mut out: Vec<F32> = logits;
            out.set(0, one());
            out
        },
    }
}

/// The norm behind the last layer as the reference engine computes it: the factor of each number
/// is formed first.
pub open spec fn final_normed<A: Arith>(ws: Weights, hidden: Seq<F32>) -> Seq<F32> {
    match u16s_of(ws, "model.norm.weight"@) {
        None => hidden,
        Some(w) => {
            let inv = inv_rms_of::<A>(
                hidden,
                hidden.len() as int,
                rms_norm_eps(),
                SumOrder::Supplied,
            );
            Seq::new(
                hidden.len(),
                |i: int| fmul::<A>(hidden[i], fmul::<A>(inv, of_bf16(w[i]))),
            )
        },
    }
}

/// Final norm and logits: the vector is replaced by its norm, and the logits come back, zeros
/// without a matrix.
pub fn final_norm_and_lm_head<A: Arith>(ws: &Weights, hidden: &mut Vec<F32>, vocab_size: usize) -> (r:
    Vec<F32>)
    requires
        old(hidden)@.len() <= i64::MAX,
        u16s_of(*ws, "model.norm.weight"@) matches Some(w) ==> old(hidden)@.len() <= w.len(),
        named_fits(*ws, "lm_head"@, vocab_size as int, old(hidden)@.len() as int),
    ensures
        r@.len() == vocab_size,
        final(hidden)@.len() == old(hidden)@.len(),
        deterministic::<A>() ==> final(hidden)@ == final_normed::<A>(*ws, old(hidden)@),
        deterministic::<A>() ==> r@ == projected::<A>(
            *ws,
            "lm_head"@,
            final_normed::<A>(*ws, old(hidden)@),
            vocab_size as int,
        ),
{
    let ghost before = hidden@;
    if let Some(fnw) = ws.get_tensor_u16("model.norm.weight") {
        let inv: F32 = inv_rms::<A>(
            hidden.as_slice(),
            hidden.len(),
            rms_norm_eps(),
            SumOrder::Supplied,
        );
        let n: usize = hidden.len();
        for i in 0..n
            invariant
                n == hidden@.len() == before.len() <= fnw@.len(),
                deterministic::<A>() ==> forall|k: int|
                    0 <= k < hidden@.len() ==> #[trigger] hidden@[k] == if k < i {
                        fmul::<A>(before[k], fmul::<A>(inv, of_bf16(fnw@[k])))
                    } else {
                        before[k]
                    },
                forall|k: int| i <= k < hidden@.len() ==> #[trigger] hidden@[k] == before[k],
        {
            let v: F32 = A::mul(hidden[i], A::mul(inv, bf16_to_f32(fnw[i])));
            hidden.set(i, v);
        }
        proof {
            if deterministic::<A>() {
                assert(hidden@ =~= final_normed::<A>(*ws, before));
            }
        }
    }
    project::<A>(ws, "lm_head", hidden.as_slice(), vocab_size)
}

/// The embedding of a token, number by number: its row of the matrix, in as many groups as the
/// scales of a row say, each number from its own four bits with the scale and the bias of its
/// group.
pub proof fn law_embedding<A: Arith>(ws: Weights, token: int, old_values: Seq<F32>, g: int, t: int)
    requires
        0 <= token,
        embed_fits(ws, token, old_values.len() as int),
        matrix_of(ws, "model.embed_tokens"@) is Some,
        0 <= g < shape_of(ws, "model.embed_tokens.scales"@)->0[1],
        0 <= t < old_values.len() as int / (shape_of(ws, "model.embed_tokens.scales"@)->0[1] as int)
            / 8 * 8,
    ensures
        ({
            let m = matrix_of(ws, "model.embed_tokens"@)->0;
            let words = shape_of(ws, "model.embed_tokens.weight"@)->0[1] as int;
            let groups = shape_of(ws, "model.embed_tokens.scales"@)->0[1] as int;
            let size = old_values.len() as int / groups;
            let word = m.w[token * words + g * (size / 8) + t / 8];
            &&& embedded::<A>(ws, token, old_values).len() == old_values.len()
            &&& embedded::<A>(ws, token, old_values)[g * size + t] == fadd::<A>(
                fmul::<A>(
                    ffrom_int::<A>(((word >> ((4 * (t % 8)) as u32)) & 0xF) as i64),
                    of_bf16(m.s[token * groups + g]),
                ),
                of_bf16(m.b[token * groups + g]),
            )
        }),
{
    let m = matrix_of(ws, "model.embed_tokens"@)->0;
    let words = shape_of(ws, "model.embed_tokens.weight"@)->0[1] as int;
    let groups = shape_of(ws, "model.embed_tokens.scales"@)->0[1] as int;
    let n = old_values.len() as int;
    let size = n / groups;
    lemma_flat(g, t, size);
    lemma_cell(g, groups, size);
    assert(groups * size <= n) by (nonlinear_arith)
        requires
            size == n / groups,
            0 < groups,
            0 <= n,
    ;
    assert(0 <= token * words && 0 <= token * groups) by (nonlinear_arith)
        requires
            0 <= token,
            0 <= words,
            0 <= groups,
    ;
    lemma_cell(g, groups, size / 8);
    let k = g * (size / 8) + t / 8;
    assert(m.s.skip(token * groups)[g] == m.s[token * groups + g]);
    assert(m.b.skip(token * groups)[g] == m.b[token * groups + g]);
    assert(m.w.skip(token * words)[k] == m.w[token * words + k]);
}

/// Numbers of a vector that no group of the embedding covers stay; without a matrix all are zero.
pub proof fn law_embedding_elsewhere<A: Arith>(
    ws: Weights,
    token: int,
    old_values: Seq<F32>,
    i: int,
)
    requires
        0 <= i < old_values.len(),
    ensures
        match matrix_of(ws, "model.embed_tokens"@) {
            None => embedded::<A>(ws, token, old_values)[i] == zero(),
            Some(_) => {
                let groups = shape_of(ws, "model.embed_tokens.scales"@)->0[1] as int;
                0 < groups && i >= groups * (old_values.len() as int / groups) ==> embedded::<A>(
                    ws,
                    token,
                    old_values,
                )[i] == old_values[i]
            },
        },
{
    if matrix_of(ws, "model.embed_tokens"@) is Some {
        let groups = shape_of(ws, "model.embed_tokens.scales"@)->0[1] as int;
        let n = old_values.len() as int;
        let size = n / groups;
        if 0 < groups && i >= groups * size && size > 0 {
            assert(i / size >= groups) by (nonlinear_arith)
                requires
                    i >= groups * size,
                    size > 0,
            ;
        }
    }
}

/// The norm behind the last layer: the root of the mean square, a millionth added, divides the
/// weight at each place, and this multiplies the number there.
pub proof fn law_final_norm<A: Arith>(ws: Weights, hidden: Seq<F32>, i: int)
    requires
        0 <= i < hidden.len(),
    ensures
        ({
            let mean = fdiv::<A>(
                fsum::<A>(Seq::new(hidden.len(), |j: int| fmul::<A>(hidden[j], hidden[j]))),
                ffrom_int::<A>(hidden.len() as i64),
            );
            let inv = fdiv::<A>(
                one(),
                fsqrt::<A>(fadd::<A>(mean, (F32 { bits: 0x3586_37BD }))),
            );
            &&& final_normed::<A>(ws, hidden).len() == hidden.len()
            &&& final_normed::<A>(ws, hidden)[i] == match u16s_of(ws, "model.norm.weight"@) {
                Some(w) => fmul::<A>(hidden[i], fmul::<A>(inv, of_bf16(w[i]))),
                None => hidden[i],
            }
        }),
{
}

} // verus!
