//! Rotary position embedding.

use crate::float::{Arith, F32, deterministic, fadd, fmul, frotary, fsub};
use vstd::prelude::*;

verus! {

/// The numbers of a head that are turned: pairs, so an even count.
pub open spec fn turned(rotary_dim: int) -> int {
    (rotary_dim + 1) / 2 * 2
}

/// The number at flat index `i` after turning: in each of the first `heads` heads the pairs
/// `(d, d + 1)` below `rotary_dim` are turned by the angle for `pos` and `d`.
pub open spec fn rope_entry<A: Arith>(
    x: Seq<F32>,
    pos: int,
    heads: int,
    head_dim: int,
    rotary_dim: int,
    theta: u64,
    i: int,
) -> F32 {
    let d = i % head_dim;
    if i < heads * head_dim && d < turned(rotary_dim) {
        let e = d / 2 * 2;
        let (c, s) = frotary::<A>(pos as usize, e as usize, rotary_dim as usize, theta);
        let (x0, x1) = (x[i - d + e], x[i - d + e + 1]);
        if d == e {
            fsub::<A>(fmul::<A>(x0, c), fmul::<A>(x1, s))
        } else {
            fadd::<A>(fmul::<A>(x0, s), fmul::<A>(x1, c))
        }
    } else {
        x[i]
    }
}

/// All heads after turning.
pub open spec fn roped<A: Arith>(
    x: Seq<F32>,
    pos: int,
    heads: int,
    head_dim: int,
    rotary_dim: int,
    theta: u64,
) -> Seq<F32> {
    Seq::new(
        x.len(),
        |i: int| rope_entry::<A>(x, pos, heads, head_dim, rotary_dim, theta, i),
    )
}

/// Turns the pairs of each head by the angles of a position.
pub fn apply_rotary_emb<A: Arith>(
    x: &[F32],
    pos: usize,
    heads: usize,
    head_dim: usize,
    rotary_dim: usize,
    theta: u64,
) -> (r: Vec<F32>)
    requires
        heads * head_dim == x@.len(),
        turned(rotary_dim as int) <= head_dim,
    ensures
        r@.len() == x@.len(),
        deterministic::<A>() ==> r@ == roped::<A>(
            x@,
            pos as int,
            heads as int,
            head_dim as int,
            rotary_dim as int,
            theta,
        ),
{
    let mut out: Vec<F32> = Vec::new();
    let n: usize = x.len();
    assert(head_dim == 0 ==> n == 0) by {
        assert(heads * 0 == 0);
    }
    for i in 0..n
        invariant
            n == x@.len(),
            n > 0 ==> head_dim > 0,
            heads * head_dim == x@.len(),
            turned(rotary_dim as int) <= head_dim,
            out@.len() == i,
            deterministic::<A>() ==> forall|k: int|
                0 <= k < i ==> #[trigger] out@[k] == rope_entry::<A>(
                    x@,
                    pos as int,
                    heads as int,
                    head_dim as int,
                    rotary_dim as int,
                    theta,
                    k,
                ),
    {
        let d: usize = i % head_dim;
        let e: usize = d / 2 * 2;
        if d < rotary_dim || e < rotary_dim {
            proof {
                let h = i as int / head_dim as int;
                vstd::arithmetic::div_mod::lemma_fundamental_div_mod(i as int, head_dim as int);
                vstd::arithmetic::mul::lemma_mul_is_commutative(head_dim as int, h);
                assert(i == h * head_dim + d);
                assert(h < heads) by (nonlinear_arith)
                    requires
                        h * head_dim + d < heads * head_dim,
                        d >= 0,
                        head_dim > 0,
                ;
                assert(h * head_dim + head_dim <= heads * head_dim) by (nonlinear_arith)
                    requires
                        h < heads,
                        head_dim > 0,
                ;
            }
            let base: usize = i - d;
            let (c, s) = A::rotary(pos, e, rotary_dim, theta);
            let x0: F32 = x[base + e];
            let x1: F32 = x[base + e + 1];
            if d == e {
                out.push(A::sub(A::mul(x0, c), A::mul(x1, s)));
            } else {
                out.push(A::add(A::mul(x0, s), A::mul(x1, c)));
            }
        } else {
            out.push(x[i]);
        }
    }
    out
}

} // verus!
