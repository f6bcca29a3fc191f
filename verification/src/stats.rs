use vstd::prelude::*;
use vstd::arithmetic::div_mod::{
    lemma_div_is_ordered,
    lemma_div_multiples_vanish,
    lemma_div_pos_is_pos,
};
use crate::chi::MAX_SAMPLES;
use crate::errors::AnalysisError;

verus! {

/// Largest magnitude of a fixed-point log-return the estimator accepts:
/// two whole units, far beyond any daily log-return, chosen so that every
/// sum and squared deviation below stays within the machine integers.
pub const MAX_ABS_RETURN: i64 = 2_000_000_000;

/// Sum of a sequence of fixed-point values.
pub open spec fn sum_seq(s: Seq<i64>) -> int
    decreases s.len(),
{
    if s.len() == 0 {
        0
    } else {
        sum_seq(s.drop_last()) + s.last()
    }
}

/// Integer division with the quotient truncated toward zero.
pub open spec fn div_trunc(a: int, b: int) -> int {
    if a >= 0 {
        a / b
    } else {
        -((-a) / b)
    }
}

/// The sample mean in fixed-point units, truncated toward zero.
pub open spec fn spec_mean(s: Seq<i64>) -> int {
    div_trunc(sum_seq(s), s.len() as int)
}

/// Sum of squared deviations from m, in squared fixed-point units.
pub open spec fn sq_dev_sum(s: Seq<i64>, m: int) -> int
    decreases s.len(),
{
    if s.len() == 0 {
        0
    } else {
        sq_dev_sum(s.drop_last(), m) + (s.last() - m) * (s.last() - m)
    }
}

/// The unbiased sample variance, in squared fixed-point units: the sum of
/// squared deviations from the sample mean, divided by one less than the
/// sample size.
pub open spec fn spec_variance(s: Seq<i64>) -> int {
    sq_dev_sum(s, spec_mean(s)) / (s.len() - 1)
}

/// Adds up the sample, in fixed-point units.
pub fn sum_sample(sample: &Vec<i64>) -> (total: i64)
    requires
        sample@.len() <= MAX_SAMPLES,
        forall|i: int|
            0 <= i < sample@.len() ==> -MAX_ABS_RETURN <= #[trigger] sample@[i]
                <= MAX_ABS_RETURN,
    ensures
        total == sum_seq(sample@),
        -(sample@.len() * 2_000_000_000) <= total <= sample@.len() * 2_000_000_000,
{
    let mut acc: i64 = 0;
    let mut k: usize = 0;
    while k < sample.len()
        invariant
            sample@.len() <= MAX_SAMPLES,
            forall|i: int|
                0 <= i < sample@.len() ==> -MAX_ABS_RETURN <= #[trigger] sample@[i]
                    <= MAX_ABS_RETURN,
            k <= sample@.len(),
            acc == sum_seq(sample@.take(k as int)),
            -(k * 2_000_000_000) <= acc <= k * 2_000_000_000,
        decreases sample@.len() - k,
    {
        proof {
            assert(sample@.take(k as int + 1).drop_last() =~= sample@.take(k as int));
            assert(sample@.take(k as int + 1).last() == sample@[k as int]);
        }
        acc = acc + sample[k];
        k += 1;
    }
    proof {
        assert(sample@.take(sample@.len() as int) =~= sample@);
    }
    acc
}

/// The sample mean, in fixed-point units, truncated toward zero. Needs at
/// least one value.
pub fn sample_mean(sample: &Vec<i64>) -> (m: i64)
    requires
        1 <= sample@.len() <= MAX_SAMPLES,
        forall|i: int|
            0 <= i < sample@.len() ==> -MAX_ABS_RETURN <= #[trigger] sample@[i]
                <= MAX_ABS_RETURN,
    ensures
        m == spec_mean(sample@),
        -MAX_ABS_RETURN <= m <= MAX_ABS_RETURN,
{
    let total = sum_sample(sample);
    let n = sample.len() as u64;
    let ghost nn = n as int;
    if total >= 0 {
        let q = (total as u64) / n;
        proof {
            lemma_div_is_ordered(total as int, nn * 2_000_000_000, nn);
            lemma_div_multiples_vanish(2_000_000_000, nn);
            lemma_div_pos_is_pos(total as int, nn);
        }
        q as i64
    } else {
        let neg = -total;
        let q = (neg as u64) / n;
        proof {
            lemma_div_is_ordered(neg as int, nn * 2_000_000_000, nn);
            lemma_div_multiples_vanish(2_000_000_000, nn);
            lemma_div_pos_is_pos(neg as int, nn);
        }
        -(q as i64)
    }
}

/// The sum of squared deviations from m, divided by one less than the
/// sample size: the unbiased variance when m is the sample mean. Needs at
/// least two values.
pub fn sample_variance_about(sample: &Vec<i64>, m: i64) -> (v: u128)
    requires
        2 <= sample@.len() <= MAX_SAMPLES,
        forall|i: int|
            0 <= i < sample@.len() ==> -MAX_ABS_RETURN <= #[trigger] sample@[i]
                <= MAX_ABS_RETURN,
        -MAX_ABS_RETURN <= m <= MAX_ABS_RETURN,
    ensures
        v == sq_dev_sum(sample@, m as int) / (sample@.len() - 1),
        v <= 32_000_000_000_000_000_000,
{
    let mut acc: u128 = 0;
    let mut k: usize = 0;
    while k < sample.len()
        invariant
            2 <= sample@.len() <= MAX_SAMPLES,
            forall|i: int|
                0 <= i < sample@.len() ==> -MAX_ABS_RETURN <= #[trigger] sample@[i]
                    <= MAX_ABS_RETURN,
            -MAX_ABS_RETURN <= m <= MAX_ABS_RETURN,
            k <= sample@.len(),
            acc == sq_dev_sum(sample@.take(k as int), m as int),
            acc <= k * 16_000_000_000_000_000_000,
        decreases sample@.len() - k,
    {
        proof {
            assert(sample@.take(k as int + 1).drop_last() =~= sample@.take(k as int));
            assert(sample@.take(k as int + 1).last() == sample@[k as int]);
        }
        let x = sample[k];
        let diff: i64 = x - m;
        let absdiff: u64 = if diff >= 0 {
            diff as u64
        } else {
            (-diff) as u64
        };
        proof {
            let dd = x - m as int;
            assert(absdiff == dd || absdiff == -dd);
            assert((-dd) * (-dd) == dd * dd) by (nonlinear_arith);
            assert(absdiff * absdiff == dd * dd) by (nonlinear_arith)
                requires
                    absdiff == dd || absdiff == -dd,
            ;
            assert(absdiff <= 4_000_000_000);
            assert(absdiff * absdiff <= 16_000_000_000_000_000_000) by (nonlinear_arith)
                requires
                    0 <= absdiff <= 4_000_000_000,
            ;
        }
        let sq: u128 = (absdiff as u128) * (absdiff as u128);
        acc = acc + sq;
        k += 1;
    }
    proof {
        assert(sample@.take(sample@.len() as int) =~= sample@);
    }
    let divisor = (sample.len() - 1) as u128;
    let v = acc / divisor;
    proof {
        lemma_div_multiples_vanish(32_000_000_000_000_000_000, divisor as int);
        assert(acc <= (sample@.len() - 1) * 32_000_000_000_000_000_000) by (nonlinear_arith)
            requires
                acc <= sample@.len() * 16_000_000_000_000_000_000,
                2 <= sample@.len(),
        ;
        lemma_div_is_ordered(
            acc as int,
            (sample@.len() - 1) * 32_000_000_000_000_000_000,
            divisor as int,
        );
    }
    v
}

/// The integer square root: the largest whole number whose square does not
/// exceed v.
pub fn isqrt(v: u128) -> (r: u64)
    requires
        v < 160_000_000_000_000_000_000_000_000_000,
    ensures
        (r as int) * (r as int) <= v < (r as int + 1) * (r as int + 1),
{
    let mut lo: u64 = 0;
    let mut hi: u64 = 400_000_000_000_000;
    proof {
        assert((hi as int) * (hi as int) == 160_000_000_000_000_000_000_000_000_000)
            by (nonlinear_arith)
            requires
                hi == 400_000_000_000_000,
        ;
    }
    while lo + 1 < hi
        invariant
            lo < hi,
            hi <= 400_000_000_000_000,
            (lo as int) * (lo as int) <= v,
            v < (hi as int) * (hi as int),
        decreases hi - lo,
    {
        let mid = lo + (hi - lo) / 2;
        assert((mid as int) * (mid as int) < 160_000_000_000_000_000_000_000_000_000)
            by (nonlinear_arith)
            requires
                0 <= mid < 400_000_000_000_000,
        ;
        let sq = (mid as u128) * (mid as u128);
        if sq <= v {
            lo = mid;
        } else {
            hi = mid;
        }
    }
    lo
}

/// Estimates the parameters of a normal distribution from the sample: the
/// truncated fixed-point sample mean, and the standard deviation as the
/// integer square root of the unbiased fixed-point variance. Refused when
/// fewer than two values are given: the variance denominator would be zero.
pub fn estimate_parameters(sample: &Vec<i64>) -> (r: Result<(i64, u64), AnalysisError>)
    requires
        sample@.len() <= MAX_SAMPLES,
        forall|i: int|
            0 <= i < sample@.len() ==> -MAX_ABS_RETURN <= #[trigger] sample@[i]
                <= MAX_ABS_RETURN,
    ensures
        (r is Ok) <==> sample@.len() >= 2,
        (r is Err) ==> r == Err::<(i64, u64), AnalysisError>(AnalysisError::DegenerateSample),
        r matches Ok(p) ==> {
            &&& p.0 == spec_mean(sample@)
            &&& (p.1 as int) * (p.1 as int) <= spec_variance(sample@)
            &&& spec_variance(sample@) < (p.1 as int + 1) * (p.1 as int + 1)
        },
{
    if sample.len() < 2 {
        return Err(AnalysisError::DegenerateSample);
    }
    let m = sample_mean(sample);
    let v = sample_variance_about(sample, m);
    let sd = isqrt(v);
    Ok((m, sd))
}

} // verus!
