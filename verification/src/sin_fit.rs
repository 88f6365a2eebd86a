//! Fitness of a function approximator against sampled target values.
//!
//! The approximator itself (and the sampling of its inputs) is an
//! outside collaborator; this module scores a batch of sampled pairs
//! of true and predicted values by their mean negative squared error.

use vstd::prelude::*;
use crate::fixed::{abs_s, fmul, tdiv, fp_mul, lemma_fmul_bound};
use crate::reward::div_i128;

verus! {

/// Sum of the squared errors of the sampled pairs, in micro-units.
pub open spec fn sq_err_sum(samples: Seq<(i64, i64)>) -> int
    decreases samples.len(),
{
    if samples.len() == 0 {
        0int
    } else {
        let last = samples.last();
        sq_err_sum(samples.drop_last()) + fmul(last.0 - last.1, last.0 - last.1)
    }
}

/// Scores sampled pairs of a true value and a predicted value by the
/// mean of the negative squared errors: zero for a perfect fit, more
/// negative the worse the fit.
pub fn reward(samples: &Vec<(i64, i64)>) -> (r: i128)
    requires
        samples@.len() >= 1,
        forall|i: int|
            0 <= i < samples@.len() ==> abs_s(#[trigger] samples@[i].0 as int)
                <= 1_000_000_000_000 && abs_s(samples@[i].1 as int) <= 1_000_000_000_000,
    ensures
        r == -tdiv(sq_err_sum(samples@), samples@.len() as int),
{
    let mut sum: i128 = 0;
    let mut i: usize = 0;
    while i < samples.len()
        invariant
            i <= samples@.len(),
            sum == sq_err_sum(samples@.subrange(0, i as int)),
            0 <= sum <= (i as int) * 4_000_000_000_000_000_000,
            forall|j: int|
                0 <= j < samples@.len() ==> abs_s(#[trigger] samples@[j].0 as int)
                    <= 1_000_000_000_000 && abs_s(samples@[j].1 as int) <= 1_000_000_000_000,
        decreases samples@.len() - i,
    {
        let pair = samples[i];
        let d = pair.0 - pair.1;
        proof {
            lemma_fmul_bound(d as int, d as int, 2_000_000_000_000int, 2_000_000_000_000int);
            assert((d as int) * (d as int) >= 0) by (nonlinear_arith);
            vstd::arithmetic::div_mod::lemma_div_pos_is_pos(
                (d as int) * (d as int),
                1_000_000int,
            );
            assert(samples@.subrange(0, i + 1).drop_last() =~= samples@.subrange(0, i as int));
            assert(samples@.subrange(0, i + 1).last() == samples@[i as int]);
        }
        let e = fp_mul(d, d);
        sum = sum + (e as i128);
        i = i + 1;
    }
    proof {
        assert(samples@.subrange(0, samples@.len() as int) =~= samples@);
    }
    let avg = div_i128(sum, samples.len() as i128);
    -avg
}

} // verus!
