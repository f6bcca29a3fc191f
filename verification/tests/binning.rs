use chi_returns::bins::{bin_index, observed_counts};
use chi_returns::interval::{categories, Bound, Interval, NUM_CATEGORIES};

/// Every probe value, boundary values included, lies in exactly one of the
/// six categories, and bin_index returns that category's index.
#[test]
fn binning_partition_no_gap_no_overlap() {
    let cats = categories();
    assert_eq!(cats.len(), NUM_CATEGORIES);
    let probes: Vec<i64> = vec![
        i64::MIN,
        -5_000_000,
        -1_000_001,
        -1_000_000,
        -999_999,
        -400_001,
        -400_000,
        -399_999,
        -1,
        0,
        1,
        399_999,
        400_000,
        400_001,
        999_999,
        1_000_000,
        1_000_001,
        5_000_000,
        i64::MAX,
    ];
    for &x in probes.iter() {
        let mut hits = 0;
        let mut hit_index = 0;
        for (i, c) in cats.iter().enumerate() {
            if c.contains(x) {
                hits += 1;
                hit_index = i;
            }
        }
        assert_eq!(hits, 1, "value {} lies in {} categories", x, hits);
        assert_eq!(bin_index(&cats, x), hit_index);
    }
}

/// The boundary values fall in the interval whose start they are: the
/// categories are half-open on the right.
#[test]
fn binning_boundaries_are_inclusive_starts() {
    let cats = categories();
    assert_eq!(bin_index(&cats, -1_000_000), 1);
    assert_eq!(bin_index(&cats, -400_000), 2);
    assert_eq!(bin_index(&cats, 0), 3);
    assert_eq!(bin_index(&cats, 400_000), 4);
    assert_eq!(bin_index(&cats, 1_000_000), 5);
    assert_eq!(bin_index(&cats, -1_000_001), 0);
    assert_eq!(bin_index(&cats, 999_999), 4);
}

/// The category list is the documented one, in order.
#[test]
fn categories_are_the_fixed_six() {
    let cats = categories();
    assert_eq!(
        cats[0],
        Interval { start: Bound::NegInf, end: Bound::Finite(-1_000_000) }
    );
    assert_eq!(
        cats[1],
        Interval { start: Bound::Finite(-1_000_000), end: Bound::Finite(-400_000) }
    );
    assert_eq!(
        cats[2],
        Interval { start: Bound::Finite(-400_000), end: Bound::Finite(0) }
    );
    assert_eq!(
        cats[3],
        Interval { start: Bound::Finite(0), end: Bound::Finite(400_000) }
    );
    assert_eq!(
        cats[4],
        Interval { start: Bound::Finite(400_000), end: Bound::Finite(1_000_000) }
    );
    assert_eq!(
        cats[5],
        Interval { start: Bound::Finite(1_000_000), end: Bound::PosInf }
    );
}

/// Observed counts sum to the sample's length, and categories with no
/// observation are present with an explicit zero.
#[test]
fn observed_counts_conserve_the_sample() {
    let cats = categories();
    let sample: Vec<i64> = vec![
        -2_000_000,
        -700_000,
        -700_000,
        -100_000,
        0,
        250_000,
        400_000,
        999_999,
        1_000_000,
        7_777_777,
    ];
    let counts = observed_counts(&sample, &cats);
    assert_eq!(counts, vec![1, 2, 1, 2, 2, 2]);
    let total: u64 = counts.iter().sum();
    assert_eq!(total as usize, sample.len());

    let empty: Vec<i64> = Vec::new();
    let zero_counts = observed_counts(&empty, &cats);
    assert_eq!(zero_counts, vec![0, 0, 0, 0, 0, 0]);
}
