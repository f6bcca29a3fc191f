use vstd::prelude::*;
use vstd::arithmetic::div_mod::{lemma_div_nonincreasing, lemma_div_pos_is_pos};
use crate::errors::AnalysisError;
use crate::interval::{SCALE, NUM_CATEGORIES};

verus! {

/// Largest sample size the evaluator accepts: keeps every fixed-point
/// product and squared difference within the machine integers.
pub const MAX_SAMPLES: usize = 1_000_000_000;

/// The cumulative distribution at the i-th category boundary, for i in 0..=6:
/// exactly 0 below the lowest category and exactly SCALE (probability one)
/// above the highest, with the five supplied interior values in between.
pub open spec fn cdf_point(cdf: Seq<i64>, i: int) -> int {
    if i <= 0 {
        0
    } else if i >= NUM_CATEGORIES {
        SCALE as int
    } else {
        cdf[i - 1] as int
    }
}

/// The five interior cumulative-distribution values form a valid profile:
/// nondecreasing and within [0, SCALE].
pub open spec fn valid_cdf(cdf: Seq<i64>) -> bool {
    &&& cdf.len() == NUM_CATEGORIES - 1
    &&& 0 <= cdf[0]
    &&& cdf[0] <= cdf[1]
    &&& cdf[1] <= cdf[2]
    &&& cdf[2] <= cdf[3]
    &&& cdf[3] <= cdf[4]
    &&& cdf[4] <= SCALE
}

/// Expected count for category i, in fixed-point units: n times the
/// probability mass the distribution assigns to the category.
pub open spec fn spec_expected(n: int, cdf: Seq<i64>, i: int) -> int {
    n * (cdf_point(cdf, i + 1) - cdf_point(cdf, i))
}

/// Chi-square contribution of one category, in fixed-point units: the
/// squared difference between the observed count (here scaled to the same
/// units) and the expected count, divided by the expected count.
pub open spec fn spec_contribution(obs: int, exp: int) -> int {
    ((obs * SCALE - exp) * (obs * SCALE - exp)) / exp
}

/// Reads the cumulative distribution at a boundary, honoring the exact 0 and
/// SCALE endpoints for the two infinite boundaries.
fn cdf_point_at(cdf: &Vec<i64>, i: usize) -> (r: i64)
    requires
        valid_cdf(cdf@),
        i <= NUM_CATEGORIES,
    ensures
        r == cdf_point(cdf@, i as int),
{
    if i == 0 {
        0
    } else if i >= NUM_CATEGORIES {
        SCALE
    } else {
        cdf[i - 1]
    }
}

/// Computes the six expected counts, in fixed-point units. Expected-count
/// conservation holds exactly: the six values sum to n * SCALE, that is to
/// n times a probability of one.
pub fn expected_counts(n: usize, cdf: &Vec<i64>) -> (exp: Vec<i64>)
    requires
        valid_cdf(cdf@),
        n <= MAX_SAMPLES,
    ensures
        exp@.len() == NUM_CATEGORIES,
        forall|i: int| 0 <= i < NUM_CATEGORIES ==> exp@[i] == spec_expected(n as int, cdf@, i),
        forall|i: int| 0 <= i < NUM_CATEGORIES ==> 0 <= #[trigger] exp@[i] <= n * SCALE,
        exp@[0] + exp@[1] + exp@[2] + exp@[3] + exp@[4] + exp@[5] == n * SCALE,
{
    let mut exp: Vec<i64> = Vec::new();
    let mut i: usize = 0;
    while i < NUM_CATEGORIES
        invariant
            valid_cdf(cdf@),
            n <= MAX_SAMPLES,
            i <= NUM_CATEGORIES,
            exp@.len() == i,
            forall|j: int| 0 <= j < i ==> exp@[j] == spec_expected(n as int, cdf@, j),
            forall|j: int| 0 <= j < i ==> 0 <= #[trigger] exp@[j] <= n * SCALE,
        decreases NUM_CATEGORIES - i,
    {
        let lo = cdf_point_at(cdf, i);
        let hi = cdf_point_at(cdf, i + 1);
        let diff = hi - lo;
        assert(0 <= diff <= SCALE);
        assert(0 <= (n as int) * (diff as int) <= (n as int) * (SCALE as int)
            <= 1_000_000_000_000_000_000) by (nonlinear_arith)
            requires
                0 <= n <= 1_000_000_000,
                0 <= diff <= SCALE,
                SCALE == 1_000_000_000,
        ;
        let e = (n as i64) * diff;
        exp.push(e);
        i += 1;
    }
    proof {
        let c0 = cdf_point(cdf@, 0);
        let c1 = cdf_point(cdf@, 1);
        let c2 = cdf_point(cdf@, 2);
        let c3 = cdf_point(cdf@, 3);
        let c4 = cdf_point(cdf@, 4);
        let c5 = cdf_point(cdf@, 5);
        let c6 = cdf_point(cdf@, 6);
        let m = n as int;
        assert(m * (c1 - c0) + m * (c2 - c1) + m * (c3 - c2) + m * (c4 - c3) + m * (c5 - c4) + m
            * (c6 - c5) == m * (c6 - c0)) by (nonlinear_arith);
        assert(c0 == 0 && c6 == SCALE);
    }
    exp
}

/// Computes the six chi-square contributions and their aggregate, in
/// fixed-point units. Refused when any expected count is zero: the
/// contribution of that category would divide by zero.
pub fn chi_statistics(observed: &Vec<u64>, expected: &Vec<i64>, n: usize) -> (r: Result<
    (Vec<i128>, i128),
    AnalysisError,
>)
    requires
        observed@.len() == NUM_CATEGORIES,
        expected@.len() == NUM_CATEGORIES,
        n <= MAX_SAMPLES,
        forall|i: int| 0 <= i < NUM_CATEGORIES ==> observed@[i] <= n,
        forall|i: int| 0 <= i < NUM_CATEGORIES ==> 0 <= #[trigger] expected@[i] <= n * SCALE,
    ensures
        (r is Ok) <==> (forall|i: int| 0 <= i < NUM_CATEGORIES ==> expected@[i] > 0),
        (r is Err) ==> r == Err::<(Vec<i128>, i128), AnalysisError>(
            AnalysisError::ZeroExpectedCount,
        ),
        r matches Ok(pair) ==> {
            &&& pair.0@.len() == NUM_CATEGORIES
            &&& forall|i: int|
                0 <= i < NUM_CATEGORIES ==> pair.0@[i] == spec_contribution(
                    observed@[i] as int,
                    expected@[i] as int,
                )
            &&& pair.1 == pair.0@[0] + pair.0@[1] + pair.0@[2] + pair.0@[3] + pair.0@[4]
                + pair.0@[5]
        },
{
    let mut stats: Vec<i128> = Vec::new();
    let mut i: usize = 0;
    while i < NUM_CATEGORIES
        invariant
            observed@.len() == NUM_CATEGORIES,
            expected@.len() == NUM_CATEGORIES,
            n <= MAX_SAMPLES,
            forall|j: int| 0 <= j < NUM_CATEGORIES ==> observed@[j] <= n,
            forall|j: int| 0 <= j < NUM_CATEGORIES ==> 0 <= #[trigger] expected@[j] <= n * SCALE,
            i <= NUM_CATEGORIES,
            stats@.len() == i,
            forall|j: int| 0 <= j < i ==> expected@[j] > 0,
            forall|j: int|
                0 <= j < i ==> stats@[j] == spec_contribution(
                    observed@[j] as int,
                    expected@[j] as int,
                ),
            forall|j: int|
                0 <= j < i ==> 0 <= #[trigger] stats@[j]
                    <= 1_000_000_000_000_000_000_000_000_000_000_000_000,
        decreases NUM_CATEGORIES - i,
    {
        let e = expected[i];
        if e <= 0 {
            return Err(AnalysisError::ZeroExpectedCount);
        }
        assert((n as int) * (SCALE as int) <= 1_000_000_000_000_000_000) by (nonlinear_arith)
            requires
                0 <= n <= 1_000_000_000,
                SCALE == 1_000_000_000,
        ;
        let obs_scaled: u128 = (observed[i] as u128) * (SCALE as u128);
        assert(obs_scaled == observed@[i as int] * SCALE
            <= 1_000_000_000_000_000_000) by (nonlinear_arith)
            requires
                obs_scaled == observed@[i as int] * SCALE,
                0 <= observed@[i as int] <= n <= 1_000_000_000,
                SCALE == 1_000_000_000,
        ;
        let e_u: u128 = e as u128;
        let absdiff: u128 = if obs_scaled >= e_u {
            obs_scaled - e_u
        } else {
            e_u - obs_scaled
        };
        let ghost d = observed@[i as int] * SCALE - expected@[i as int];
        proof {
            assert(absdiff == d || absdiff == -d);
            assert((-d) * (-d) == d * d) by (nonlinear_arith);
            assert(absdiff * absdiff == d * d) by (nonlinear_arith)
                requires
                    absdiff == d || absdiff == -d,
            ;
            assert(absdiff <= 1_000_000_000_000_000_000);
            assert(absdiff * absdiff <= 1_000_000_000_000_000_000_000_000_000_000_000_000)
                by (nonlinear_arith)
                requires
                    0 <= absdiff <= 1_000_000_000_000_000_000,
            ;
        }
        let sq: u128 = absdiff * absdiff;
        let q: u128 = sq / e_u;
        proof {
            lemma_div_nonincreasing(sq as int, e_u as int);
            lemma_div_pos_is_pos(sq as int, e_u as int);
        }
        let stat: i128 = q as i128;
        proof {
            assert(stat == (d * d) / (expected@[i as int] as int));
        }
        stats.push(stat);
        i += 1;
    }
    let total: i128 = stats[0] + stats[1] + stats[2] + stats[3] + stats[4] + stats[5];
    Ok((stats, total))
}

} // verus!
