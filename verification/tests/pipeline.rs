use chi_returns::analysis::{log_return_pairs, solve};
use chi_returns::chi::expected_counts;
use chi_returns::errors::AnalysisError;
use chi_returns::interval::{categories, SCALE};
use chi_returns::stats::{estimate_parameters, isqrt, sample_mean, sample_variance_about};
use statrs::distribution::{ContinuousCDF, Normal};

/// Converts a real value to the library's fixed-point representation.
fn scaled(x: f64) -> i64 {
    (x * 1e9).round() as i64
}

/// The five category boundaries as real values.
const BOUNDARIES: [f64; 5] = [-0.001, -0.0004, 0.0, 0.0004, 0.001];

/// The cumulative distribution of a normal law at the five interior category
/// boundaries, in fixed-point units, as the application would hand it over.
fn cdf_profile(mean: f64, sd: f64) -> Vec<i64> {
    let dist = Normal::new(mean, sd).unwrap();
    let mut cdf: Vec<i64> = Vec::new();
    for b in BOUNDARIES.iter() {
        let mut c = scaled(dist.cdf(*b));
        if c < 0 {
            c = 0;
        }
        if c > SCALE {
            c = SCALE;
        }
        if let Some(&prev) = cdf.last() {
            if c < prev {
                c = prev;
            }
        }
        cdf.push(c);
    }
    cdf
}

/// Expected counts sum exactly to n times a probability of one, for a real
/// normal distribution's profile.
#[test]
fn expected_counts_conserve_probability_mass() {
    let cdf = cdf_profile(0.0, 0.02);
    let exp = expected_counts(7, &cdf);
    assert_eq!(exp.len(), 6);
    let total: i64 = exp.iter().sum();
    assert_eq!(total, 7 * SCALE);

    let skewed = cdf_profile(0.0003, 0.0005);
    let exp2 = expected_counts(11, &skewed);
    let total2: i64 = exp2.iter().sum();
    assert_eq!(total2, 11 * SCALE);
}

/// Closes [100.0, 105.0, 100.0] give the returns ln(1.05) and ln(100/105).
#[test]
fn return_calculation() {
    let closes: Vec<i64> = vec![scaled(100.0), scaled(105.0), scaled(100.0)];
    let pairs = log_return_pairs(&closes).unwrap();
    assert_eq!(pairs.len(), 2);
    assert_eq!(pairs[0], (scaled(100.0), scaled(105.0)));
    assert_eq!(pairs[1], (scaled(105.0), scaled(100.0)));
    let r0 = (pairs[0].1 as f64 / pairs[0].0 as f64).ln();
    let r1 = (pairs[1].1 as f64 / pairs[1].0 as f64).ln();
    assert!((r0 - 0.04879).abs() < 1e-5);
    assert!((r1 + 0.04879).abs() < 1e-5);
    assert!((r0 - 1.05f64.ln()).abs() < 1e-12);
    assert!((r1 - (100.0f64 / 105.0).ln()).abs() < 1e-12);
}

/// Returns [0.01, -0.01, 0.02, -0.02] have sample mean 0 and unbiased sample
/// variance 0.001 / 3, exactly in fixed-point units.
#[test]
fn sample_statistics() {
    let sample: Vec<i64> = vec![
        scaled(0.01),
        scaled(-0.01),
        scaled(0.02),
        scaled(-0.02),
    ];
    let mean = sample_mean(&sample);
    assert_eq!(mean, 0);
    let var = sample_variance_about(&sample, mean);
    // (0.0001 + 0.0001 + 0.0004 + 0.0004) / 3 = 0.000333..., in squared
    // fixed-point units 10^15 / 3 truncated.
    assert_eq!(var, 333_333_333_333_333u128);
    let var_real = var as f64 / 1e18;
    assert!((var_real - 0.000333333).abs() < 1e-9);
    let (m, sd) = estimate_parameters(&sample).unwrap();
    assert_eq!(m, 0);
    let sd_sq = (sd as u128) * (sd as u128);
    let next_sq = (sd as u128 + 1) * (sd as u128 + 1);
    assert!(sd_sq <= var && var < next_sq);
    assert!((sd as f64 / 1e9 - (0.001f64 / 3.0).sqrt()).abs() < 1e-8);
}

/// The integer square root brackets its argument between consecutive squares.
#[test]
fn isqrt_brackets() {
    for &v in [0u128, 1, 2, 3, 4, 5, 24, 25, 26, 333_333_333_333_333, 160_000_000_000_000_000_000].iter() {
        let r = isqrt(v) as u128;
        assert!(r * r <= v);
        assert!(v < (r + 1) * (r + 1));
    }
    assert_eq!(isqrt(0), 0);
    assert_eq!(isqrt(1), 1);
    assert_eq!(isqrt(25), 5);
    assert_eq!(isqrt(24), 4);
}

/// A crafted profile with probabilities [0.1, 0.2, 0.2, 0.2, 0.2, 0.1] and a
/// sample of ten returns matching the expected counts exactly: every
/// chi-square contribution is zero. Moving one return between categories
/// gives an exactly computable statistic.
#[test]
fn chi_square_exact_values() {
    let cats = categories();
    let cdf: Vec<i64> = vec![
        100_000_000,
        300_000_000,
        500_000_000,
        700_000_000,
        900_000_000,
    ];
    let matching: Vec<i64> = vec![
        -2_000_000,
        -700_000,
        -600_000,
        -100_000,
        -50_000,
        100_000,
        200_000,
        500_000,
        600_000,
        2_000_000,
    ];
    let ev = solve(&matching, &cats, &cdf).unwrap();
    for b in ev.bins.iter() {
        assert_eq!(b.statistic, 0);
    }
    assert_eq!(ev.total, 0);
    let expected: Vec<i64> = ev.bins.iter().map(|b| b.expected).collect();
    assert_eq!(
        expected,
        vec![SCALE, 2 * SCALE, 2 * SCALE, 2 * SCALE, 2 * SCALE, SCALE]
    );

    // One return moves from the second category down to the first: the
    // contributions become (2-1)^2/1 = 1 and (1-2)^2/2 = 0.5.
    let shifted: Vec<i64> = vec![
        -2_000_000,
        -1_100_000,
        -600_000,
        -100_000,
        -50_000,
        100_000,
        200_000,
        500_000,
        600_000,
        2_000_000,
    ];
    let ev2 = solve(&shifted, &cats, &cdf).unwrap();
    let observed: Vec<u64> = ev2.bins.iter().map(|b| b.observed).collect();
    assert_eq!(observed, vec![2, 1, 2, 2, 2, 1]);
    assert_eq!(ev2.bins[0].statistic, SCALE as i128);
    assert_eq!(ev2.bins[1].statistic, SCALE as i128 / 2);
    assert_eq!(ev2.total, 1_500_000_000i128);
}

/// A three-row series with closes [100, 101, 99] gives two returns, one in
/// the highest category and one in the lowest; the statistic against
/// Normal(0, 0.02) matches an independently computed value within 1e-6.
#[test]
fn end_to_end_scenario() {
    let closes: Vec<i64> = vec![scaled(100.0), scaled(101.0), scaled(99.0)];
    let pairs = log_return_pairs(&closes).unwrap();
    let returns: Vec<i64> = pairs
        .iter()
        .map(|&(a, b)| scaled((b as f64 / a as f64).ln()))
        .collect();
    assert_eq!(returns.len(), 2);
    assert!((returns[0] as f64 / 1e9 - 0.00995).abs() < 1e-5);
    assert!((returns[1] as f64 / 1e9 + 0.02).abs() < 1e-4);

    let cats = categories();
    let cdf = cdf_profile(0.0, 0.02);
    let ev = solve(&returns, &cats, &cdf).unwrap();
    let observed: Vec<u64> = ev.bins.iter().map(|b| b.observed).collect();
    assert_eq!(observed, vec![1, 0, 0, 0, 0, 1]);

    // Independent reference computation in floating point.
    let dist = Normal::new(0.0, 0.02).unwrap();
    let mut cdf_real: Vec<f64> = vec![0.0];
    for b in BOUNDARIES.iter() {
        cdf_real.push(dist.cdf(*b));
    }
    cdf_real.push(1.0);
    let obs_real = [1.0f64, 0.0, 0.0, 0.0, 0.0, 1.0];
    let n = 2.0f64;
    let mut reference = 0.0f64;
    for i in 0..6 {
        let e = n * (cdf_real[i + 1] - cdf_real[i]);
        reference += (obs_real[i] - e) * (obs_real[i] - e) / e;
    }
    let got = ev.total as f64 / 1e9;
    assert!(
        (got - reference).abs() < 1e-6,
        "library statistic {} differs from reference {}",
        got,
        reference
    );
}

/// Fewer than two records refuse both the return series and the parameter
/// estimate.
#[test]
fn degenerate_sample_is_refused() {
    let one: Vec<i64> = vec![scaled(100.0)];
    assert_eq!(
        log_return_pairs(&one),
        Err(AnalysisError::DegenerateSample)
    );
    let none: Vec<i64> = Vec::new();
    assert_eq!(
        log_return_pairs(&none),
        Err(AnalysisError::DegenerateSample)
    );
    let single_return: Vec<i64> = vec![scaled(0.001)];
    assert_eq!(
        estimate_parameters(&single_return),
        Err(AnalysisError::DegenerateSample)
    );
}

/// A close at or below zero refuses the return series: its logarithm would be
/// undefined.
#[test]
fn non_positive_close_is_refused() {
    let with_zero: Vec<i64> = vec![scaled(100.0), 0];
    assert_eq!(
        log_return_pairs(&with_zero),
        Err(AnalysisError::NonPositiveClose)
    );
    let with_negative: Vec<i64> = vec![scaled(100.0), scaled(-3.0), scaled(100.0)];
    assert_eq!(
        log_return_pairs(&with_negative),
        Err(AnalysisError::NonPositiveClose)
    );
}

/// A category with zero expected count refuses the evaluation: its
/// contribution would divide by zero. An empty sample makes every expected
/// count zero.
#[test]
fn zero_expected_count_is_refused() {
    let cats = categories();
    let cdf = cdf_profile(0.0, 0.02);
    let empty: Vec<i64> = Vec::new();
    assert_eq!(
        solve(&empty, &cats, &cdf).unwrap_err(),
        AnalysisError::ZeroExpectedCount
    );
    // A distribution with all its mass in the lowest category: the other
    // categories expect nothing.
    let flat: Vec<i64> = vec![SCALE, SCALE, SCALE, SCALE, SCALE];
    let sample: Vec<i64> = vec![-2_000_000, -1_500_000];
    assert_eq!(
        solve(&sample, &cats, &flat).unwrap_err(),
        AnalysisError::ZeroExpectedCount
    );
}
