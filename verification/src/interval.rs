use vstd::prelude::*;

verus! {

/// Number of fixed-point units in one whole unit: values carry nine decimal
/// places, so a real number x is represented by the integer closest to
/// x * 1_000_000_000.
pub const SCALE: i64 = 1_000_000_000;

/// How many fixed categories partition the real line.
pub const NUM_CATEGORIES: usize = 6;

/// An interval boundary: a finite fixed-point value or one of the two
/// infinities.
#[derive(Debug, Clone, Copy, PartialEq, Eq, Structural)]
pub enum Bound {
    NegInf,
    Finite(i64),
    PosInf,
}

/// A half-open interval [start, end): the start belongs to it, the end does
/// not.
#[derive(Debug, Clone, Copy, PartialEq, Eq, Structural)]
pub struct Interval {
    pub start: Bound,
    pub end: Bound,
}

impl Bound {
    /// The boundary lies at or below the value x.
    pub open spec fn spec_at_or_below(self, x: int) -> bool {
        match self {
            Bound::NegInf => true,
            Bound::Finite(v) => v <= x,
            Bound::PosInf => false,
        }
    }

    /// The boundary lies strictly above the value x.
    pub open spec fn spec_above(self, x: int) -> bool {
        match self {
            Bound::NegInf => false,
            Bound::Finite(v) => x < v,
            Bound::PosInf => true,
        }
    }

    /// Decides whether this boundary lies at or below x.
    pub fn at_or_below(&self, x: i64) -> (r: bool)
        ensures
            r == self.spec_at_or_below(x as int),
    {
        match self {
            Bound::NegInf => true,
            Bound::Finite(v) => *v <= x,
            Bound::PosInf => false,
        }
    }

    /// Decides whether this boundary lies strictly above x.
    pub fn above(&self, x: i64) -> (r: bool)
        ensures
            r == self.spec_above(x as int),
    {
        match self {
            Bound::NegInf => false,
            Bound::Finite(v) => x < *v,
            Bound::PosInf => true,
        }
    }
}

impl Interval {
    /// x lies in the half-open interval: start <= x < end.
    pub open spec fn spec_contains(self, x: int) -> bool {
        self.start.spec_at_or_below(x) && self.end.spec_above(x)
    }

    /// Decides whether x lies in the half-open interval.
    pub fn contains(&self, x: i64) -> (r: bool)
        ensures
            r == self.spec_contains(x as int),
    {
        self.start.at_or_below(x) && self.end.above(x)
    }
}

/// The six fixed return categories, in fixed-point units: boundaries at
/// -0.001, -0.0004, 0, 0.0004 and 0.001, closed off with the two infinities.
pub open spec fn spec_categories() -> Seq<Interval> {
    seq![
        Interval { start: Bound::NegInf, end: Bound::Finite(-1_000_000i64) },
        Interval { start: Bound::Finite(-1_000_000i64), end: Bound::Finite(-400_000i64) },
        Interval { start: Bound::Finite(-400_000i64), end: Bound::Finite(0i64) },
        Interval { start: Bound::Finite(0i64), end: Bound::Finite(400_000i64) },
        Interval { start: Bound::Finite(400_000i64), end: Bound::Finite(1_000_000i64) },
        Interval { start: Bound::Finite(1_000_000i64), end: Bound::PosInf },
    ]
}

/// The index of the category a value falls in, by the same boundaries.
pub open spec fn spec_bin_of(x: int) -> int {
    if x < -1_000_000 {
        0
    } else if x < -400_000 {
        1
    } else if x < 0 {
        2
    } else if x < 400_000 {
        3
    } else if x < 1_000_000 {
        4
    } else {
        5
    }
}

/// The category at index spec_bin_of(x) contains x, and no other one does.
pub proof fn lemma_bin_of(x: int)
    ensures
        0 <= spec_bin_of(x) < NUM_CATEGORIES,
        spec_categories()[spec_bin_of(x)].spec_contains(x),
        forall|j: int|
            0 <= j < NUM_CATEGORIES && spec_categories()[j].spec_contains(x) ==> j == spec_bin_of(
                x,
            ),
{
    assert forall|j: int|
        0 <= j < NUM_CATEGORIES && spec_categories()[j].spec_contains(x) implies j == spec_bin_of(
        x,
    ) by {
        if j == 0 {
        } else if j == 1 {
        } else if j == 2 {
        } else if j == 3 {
        } else if j == 4 {
        }
    }
}

/// Exactly one of the six categories contains any given value: they cover the
/// whole line with no gap and no overlap.
pub proof fn lemma_categories_partition(x: int)
    ensures
        exists|i: int| 0 <= i < NUM_CATEGORIES && #[trigger] spec_categories()[i].spec_contains(x),
        forall|i: int, j: int|
            0 <= i < NUM_CATEGORIES && 0 <= j < NUM_CATEGORIES
                && #[trigger] spec_categories()[i].spec_contains(x)
                && #[trigger] spec_categories()[j].spec_contains(x) ==> i == j,
{
    lemma_bin_of(x);
    assert(spec_categories()[spec_bin_of(x)].spec_contains(x));
}

/// Builds the six fixed categories in listed order.
pub fn categories() -> (v: Vec<Interval>)
    ensures
        v@ == spec_categories(),
{
    let mut v: Vec<Interval> = Vec::new();
    v.push(Interval { start: Bound::NegInf, end: Bound::Finite(-1_000_000) });
    v.push(Interval { start: Bound::Finite(-1_000_000), end: Bound::Finite(-400_000) });
    v.push(Interval { start: Bound::Finite(-400_000), end: Bound::Finite(0) });
    v.push(Interval { start: Bound::Finite(0), end: Bound::Finite(400_000) });
    v.push(Interval { start: Bound::Finite(400_000), end: Bound::Finite(1_000_000) });
    v.push(Interval { start: Bound::Finite(1_000_000), end: Bound::PosInf });
    proof {
        assert(v@ =~= spec_categories());
    }
    v
}

} // verus!
