use vstd::prelude::*;
use crate::bins::{count_in, lemma_count_in_le_len, observed_counts};
use crate::chi::{
    MAX_SAMPLES,
    chi_statistics,
    expected_counts,
    spec_contribution,
    spec_expected,
    valid_cdf,
};
use crate::errors::AnalysisError;
use crate::interval::{Interval, NUM_CATEGORIES, SCALE, spec_categories};

verus! {

/// One category's row in a report: the observed count, the expected count in
/// fixed-point units, and the chi-square contribution in fixed-point units.
#[derive(Debug, Clone, Copy, PartialEq, Eq, Structural)]
pub struct BinResult {
    pub observed: u64,
    pub expected: i64,
    pub statistic: i128,
}

/// A completed evaluation: one row per category, in category order, plus the
/// aggregate chi-square statistic.
#[derive(Debug)]
pub struct Evaluation {
    pub bins: Vec<BinResult>,
    pub total: i128,
}

/// Pairs each closing price with its successor, after checking that a return
/// series can be formed at all: at least two records, every close positive.
/// The logarithm of each ratio is left to the caller; everything decidable on
/// the prices themselves is decided here.
pub fn log_return_pairs(closes: &Vec<i64>) -> (r: Result<Vec<(i64, i64)>, AnalysisError>)
    ensures
        closes@.len() < 2 ==> r == Err::<Vec<(i64, i64)>, AnalysisError>(
            AnalysisError::DegenerateSample,
        ),
        closes@.len() >= 2 && (exists|i: int| 0 <= i < closes@.len() && #[trigger] closes@[i] <= 0)
            ==> r == Err::<Vec<(i64, i64)>, AnalysisError>(AnalysisError::NonPositiveClose),
        (r is Ok) <==> (closes@.len() >= 2 && forall|i: int|
            0 <= i < closes@.len() ==> #[trigger] closes@[i] > 0),
        r matches Ok(ps) ==> {
            &&& ps@.len() == closes@.len() - 1
            &&& forall|i: int|
                0 <= i < ps@.len() ==> #[trigger] ps@[i] == (closes@[i], closes@[i + 1])
        },
{
    if closes.len() < 2 {
        return Err(AnalysisError::DegenerateSample);
    }
    let mut k: usize = 0;
    while k < closes.len()
        invariant
            closes@.len() >= 2,
            k <= closes@.len(),
            forall|i: int| 0 <= i < k ==> #[trigger] closes@[i] > 0,
        decreases closes@.len() - k,
    {
        if closes[k] <= 0 {
            return Err(AnalysisError::NonPositiveClose);
        }
        k += 1;
    }
    let mut pairs: Vec<(i64, i64)> = Vec::new();
    let last = closes.len() - 1;
    let mut j: usize = 0;
    while j < last
        invariant
            closes@.len() >= 2,
            last == closes@.len() - 1,
            j <= last,
            pairs@.len() == j,
            forall|i: int|
                0 <= i < j ==> #[trigger] pairs@[i] == (closes@[i], closes@[i + 1]),
        decreases closes@.len() - j,
    {
        pairs.push((closes[j], closes[j + 1]));
        j += 1;
    }
    Ok(pairs)
}

/// Runs one goodness-of-fit evaluation of the sample against a distribution
/// given by its cumulative-distribution profile at the category boundaries:
/// per category the observed count, the expected count and the chi-square
/// contribution, plus the aggregate statistic. Refused exactly when some
/// category's expected count is zero, since its contribution would divide by
/// zero. Observed counts sum to the sample's length, expected counts to the
/// length times SCALE.
pub fn solve(sample: &Vec<i64>, cats: &Vec<Interval>, cdf: &Vec<i64>) -> (r: Result<
    Evaluation,
    AnalysisError,
>)
    requires
        cats@ == spec_categories(),
        valid_cdf(cdf@),
        sample@.len() <= MAX_SAMPLES,
    ensures
        (r is Ok) <==> (forall|i: int|
            0 <= i < NUM_CATEGORIES ==> spec_expected(sample@.len() as int, cdf@, i) > 0),
        (r is Err) ==> r == Err::<Evaluation, AnalysisError>(AnalysisError::ZeroExpectedCount),
        r matches Ok(ev) ==> {
            &&& ev.bins@.len() == NUM_CATEGORIES
            &&& forall|i: int|
                0 <= i < NUM_CATEGORIES ==> (#[trigger] ev.bins@[i]).observed == count_in(
                    sample@,
                    i,
                )
            &&& forall|i: int|
                0 <= i < NUM_CATEGORIES ==> (#[trigger] ev.bins@[i]).expected == spec_expected(
                    sample@.len() as int,
                    cdf@,
                    i,
                )
            &&& forall|i: int|
                0 <= i < NUM_CATEGORIES ==> (#[trigger] ev.bins@[i]).statistic
                    == spec_contribution(
                    count_in(sample@, i) as int,
                    spec_expected(sample@.len() as int, cdf@, i),
                )
            &&& ev.total == ev.bins@[0].statistic + ev.bins@[1].statistic
                + ev.bins@[2].statistic + ev.bins@[3].statistic + ev.bins@[4].statistic
                + ev.bins@[5].statistic
            &&& ev.bins@[0].observed + ev.bins@[1].observed + ev.bins@[2].observed
                + ev.bins@[3].observed + ev.bins@[4].observed + ev.bins@[5].observed
                == sample@.len()
            &&& ev.bins@[0].expected + ev.bins@[1].expected + ev.bins@[2].expected
                + ev.bins@[3].expected + ev.bins@[4].expected + ev.bins@[5].expected
                == sample@.len() * SCALE
        },
{
    let n = sample.len();
    let observed = observed_counts(sample, cats);
    let expected = expected_counts(n, cdf);
    proof {
        assert forall|i: int| 0 <= i < NUM_CATEGORIES implies observed@[i] <= n by {
            lemma_count_in_le_len(sample@, i);
        }
    }
    let stats_pair = match chi_statistics(&observed, &expected, n) {
        Ok(p) => p,
        Err(e) => {
            return Err(e);
        },
    };
    let stats = stats_pair.0;
    let total = stats_pair.1;
    let mut bins: Vec<BinResult> = Vec::new();
    let mut i: usize = 0;
    while i < NUM_CATEGORIES
        invariant
            observed@.len() == NUM_CATEGORIES,
            expected@.len() == NUM_CATEGORIES,
            stats@.len() == NUM_CATEGORIES,
            i <= NUM_CATEGORIES,
            bins@.len() == i,
            forall|j: int|
                0 <= j < i ==> #[trigger] bins@[j] == (BinResult {
                    observed: observed@[j],
                    expected: expected@[j],
                    statistic: stats@[j],
                }),
        decreases NUM_CATEGORIES - i,
    {
        bins.push(
            BinResult { observed: observed[i], expected: expected[i], statistic: stats[i] },
        );
        i += 1;
    }
    Ok(Evaluation { bins, total })
}

} // verus!
