use vstd::prelude::*;
use crate::interval::{Interval, spec_categories, spec_bin_of, lemma_bin_of, NUM_CATEGORIES};

verus! {

/// How many values of the sequence fall in category i.
pub open spec fn count_in(s: Seq<i64>, i: int) -> nat
    decreases s.len(),
{
    if s.len() == 0 {
        0
    } else {
        count_in(s.drop_last(), i) + (if spec_categories()[i].spec_contains(
            s.last() as int,
        ) {
            1nat
        } else {
            0nat
        })
    }
}

/// A category's count never exceeds the sequence's length.
pub proof fn lemma_count_in_le_len(s: Seq<i64>, i: int)
    ensures
        count_in(s, i) <= s.len(),
    decreases s.len(),
{
    if s.len() > 0 {
        lemma_count_in_le_len(s.drop_last(), i);
    }
}

/// Count conservation: the six category counts always sum to the length of
/// the sample, because every value falls in exactly one category.
pub proof fn lemma_count_conservation(s: Seq<i64>)
    ensures
        count_in(s, 0) + count_in(s, 1) + count_in(s, 2) + count_in(s, 3) + count_in(s, 4)
            + count_in(s, 5) == s.len(),
    decreases s.len(),
{
    if s.len() > 0 {
        lemma_count_conservation(s.drop_last());
        lemma_bin_of(s.last() as int);
    }
}

/// Finds the first (and, by the partition property, only) category that
/// contains x, scanning the categories in listed order.
pub fn bin_index(cats: &Vec<Interval>, x: i64) -> (i: usize)
    requires
        cats@ == spec_categories(),
    ensures
        i < NUM_CATEGORIES,
        i == spec_bin_of(x as int),
        cats@[i as int].spec_contains(x as int),
        forall|j: int| 0 <= j < i ==> !cats@[j].spec_contains(x as int),
{
    let mut k: usize = 0;
    while k < cats.len()
        invariant
            cats@ == spec_categories(),
            k <= cats@.len(),
            forall|j: int| 0 <= j < k ==> !cats@[j].spec_contains(x as int),
        decreases cats@.len() - k,
    {
        if cats[k].contains(x) {
            proof {
                lemma_bin_of(x as int);
            }
            return k;
        }
        k += 1;
    }
    proof {
        lemma_bin_of(x as int);
        assert(false);
    }
    0
}

/// Tallies how many sample values fall in each of the six categories; a
/// category with no observation keeps its explicit zero. The counts sum to
/// the sample's length.
pub fn observed_counts(sample: &Vec<i64>, cats: &Vec<Interval>) -> (counts: Vec<u64>)
    requires
        cats@ == spec_categories(),
    ensures
        counts@.len() == NUM_CATEGORIES,
        forall|i: int| 0 <= i < NUM_CATEGORIES ==> counts@[i] == count_in(sample@, i),
        counts@[0] + counts@[1] + counts@[2] + counts@[3] + counts@[4] + counts@[5]
            == sample@.len(),
{
    let mut counts: Vec<u64> = Vec::new();
    let mut z: usize = 0;
    while z < NUM_CATEGORIES
        invariant
            z <= NUM_CATEGORIES,
            counts@.len() == z,
            forall|i: int| 0 <= i < z ==> counts@[i] == 0,
        decreases NUM_CATEGORIES - z,
    {
        counts.push(0);
        z += 1;
    }
    let mut k: usize = 0;
    while k < sample.len()
        invariant
            cats@ == spec_categories(),
            counts@.len() == NUM_CATEGORIES,
            k <= sample@.len(),
            forall|i: int|
                0 <= i < NUM_CATEGORIES ==> counts@[i] == count_in(sample@.take(k as int), i),
        decreases sample@.len() - k,
    {
        let idx = bin_index(cats, sample[k]);
        proof {
            lemma_count_in_le_len(sample@.take(k as int), idx as int);
            assert(sample@.take(k as int).len() == k);
        }
        let c = counts[idx];
        let ghost before = counts@;
        counts.set(idx, c + 1);
        proof {
            assert(sample@.take(k as int + 1).drop_last() =~= sample@.take(k as int));
            assert(sample@.take(k as int + 1).last() == sample@[k as int]);
            assert forall|i: int|
                0 <= i < NUM_CATEGORIES implies counts@[i] == count_in(
                sample@.take(k as int + 1),
                i,
            ) by {
                if i == idx {
                    assert(spec_categories()[i].spec_contains(sample@[k as int] as int));
                } else {
                    assert(counts@[i] == before[i]);
                    assert(!spec_categories()[i].spec_contains(sample@[k as int] as int));
                }
            }
        }
        k += 1;
    }
    proof {
        assert(sample@.take(sample@.len() as int) =~= sample@);
        lemma_count_conservation(sample@);
    }
    counts
}

} // verus!
