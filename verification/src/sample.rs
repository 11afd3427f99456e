//! The running statistic kept for one key, and its merge algebra.

use vstd::prelude::*;
use vstd::std_specs::convert::FromSpecImpl;
use crate::decimal::{lemma_rounded_quotient_between, round_div, rounded_quotient, UNITS_PER_TENTH};

verus! {

/// The mathematical content of a [`Sample`]: unbounded integers, so that the
/// merge algebra holds without side conditions.
pub struct SampleView {
    pub min: int,
    pub max: int,
    pub sum: int,
    pub count: nat,
}

impl SampleView {
    /// The statistic of no observation at all. Its `min` is the largest and
    /// its `max` the smallest representable value, so that merging it with
    /// any statistic of representable values changes nothing.
    pub open spec fn identity() -> SampleView {
        SampleView { min: i64::MAX as int, max: i64::MIN as int, sum: 0, count: 0 }
    }

    /// The statistic of the single observation `v`.
    pub open spec fn single(v: int) -> SampleView {
        SampleView { min: v, max: v, sum: v, count: 1 }
    }

    /// The statistic of the observations of `self` and of `other` together.
    pub open spec fn merge(self, other: SampleView) -> SampleView {
        SampleView {
            min: if self.min <= other.min { self.min } else { other.min },
            max: if self.max >= other.max { self.max } else { other.max },
            sum: self.sum + other.sum,
            count: self.count + other.count,
        }
    }

    /// The mean of the observations, rounded to the nearest unit, ties to
    /// the even neighbour. Meant for a statistic of at least one observation.
    pub open spec fn mean(self) -> int {
        rounded_quotient(self.sum, self.count as int)
    }

    /// The mean of the observations in tenths, rounded once, from the exact
    /// quotient. Meant for a statistic of at least one observation.
    pub open spec fn mean_tenths(self) -> int {
        rounded_quotient(self.sum, self.count * UNITS_PER_TENTH)
    }

    /// What holds of every statistic built from representable observations:
    /// with no observation it is the identity; otherwise each observation lies
    /// between `min` and `max`, and so does their mean.
    pub open spec fn wf(self) -> bool {
        if self.count == 0 {
            self == SampleView::identity()
        } else {
            &&& i64::MIN <= self.min <= self.max <= i64::MAX
            &&& self.count * self.min <= self.sum <= self.count * self.max
        }
    }
}

/// Merging is commutative.
pub proof fn lemma_merge_commutative(a: SampleView, b: SampleView)
    ensures
        a.merge(b) == b.merge(a),
{
}

/// Merging is associative.
pub proof fn lemma_merge_associative(a: SampleView, b: SampleView, c: SampleView)
    ensures
        a.merge(b).merge(c) == a.merge(b.merge(c)),
{
}

/// The zero-count statistic is neutral on both sides, for every statistic
/// of representable values and for itself.
pub proof fn lemma_merge_identity(a: SampleView)
    requires
        a.min <= i64::MAX,
        a.max >= i64::MIN,
    ensures
        a.merge(SampleView::identity()) == a,
        SampleView::identity().merge(a) == a,
        SampleView::identity().wf(),
{
}

/// Merging two well-formed statistics gives a well-formed one.
pub proof fn lemma_merge_wf(a: SampleView, b: SampleView)
    requires
        a.wf(),
        b.wf(),
    ensures
        a.merge(b).wf(),
{
    let m = a.merge(b);
    if a.count == 0 || b.count == 0 {
    } else {
        assert(a.count * m.min <= a.count * a.min) by (nonlinear_arith)
            requires m.min <= a.min;
        assert(b.count * m.min <= b.count * b.min) by (nonlinear_arith)
            requires m.min <= b.min;
        assert(a.count * m.max >= a.count * a.max) by (nonlinear_arith)
            requires m.max >= a.max;
        assert(b.count * m.max >= b.count * b.max) by (nonlinear_arith)
            requires m.max >= b.max;
        assert(m.count * m.min == a.count * m.min + b.count * m.min) by (nonlinear_arith)
            requires m.count == a.count + b.count;
        assert(m.count * m.max == a.count * m.max + b.count * m.max) by (nonlinear_arith)
            requires m.count == a.count + b.count;
    }
}

/// A mergeable running statistic of fixed-point values: their minimum,
/// maximum, sum and number.
#[derive(Debug, Clone, Copy, PartialEq, Eq)]
pub struct Sample {
    min: i64,
    max: i64,
    sum: i128,
    count: u64,
}

impl View for Sample {
    type V = SampleView;

    closed spec fn view(&self) -> SampleView {
        SampleView {
            min: self.min as int,
            max: self.max as int,
            sum: self.sum as int,
            count: self.count as nat,
        }
    }
}

impl Sample {
    /// Well-formedness of the value held; every constructor establishes it
    /// and every method preserves it.
    pub open spec fn wf(&self) -> bool {
        self@.wf()
    }

    /// The sample that holds the single observation `value`.
    pub closed spec fn single_spec(value: i64) -> Sample {
        Sample { min: value, max: value, sum: value as i128, count: 1 }
    }

    /// Samples that hold the same statistic are the same sample.
    pub proof fn lemma_same_statistic(a: Sample, b: Sample)
        requires
            a@ == b@,
        ensures
            a == b,
    {
    }

    /// Merging `b` into `a` and merging `a` into `b` leave the same sample:
    /// `x` and `y` are what the two merges leave.
    pub proof fn lemma_merge_commutes(a: Sample, b: Sample, x: Sample, y: Sample)
        requires
            x@ == a@.merge(b@),
            y@ == b@.merge(a@),
        ensures
            x == y,
    {
        lemma_merge_commutative(a@, b@);
    }

    /// Merging `b` and then `c` into `a` leaves the same sample as merging
    /// into `a` what merging `c` into `b` leaves: `x` and `y` are what the
    /// two ways leave.
    pub proof fn lemma_merge_associates(a: Sample, b: Sample, c: Sample, x: Sample, y: Sample)
        requires
            x@ == a@.merge(b@).merge(c@),
            y@ == a@.merge(b@.merge(c@)),
        ensures
            x == y,
    {
        lemma_merge_associative(a@, b@, c@);
    }

    /// What `single_spec` holds: the statistic of the one observation, which
    /// is well formed.
    pub proof fn lemma_single_spec(value: i64)
        ensures
            Sample::single_spec(value)@ == SampleView::single(value as int),
            Sample::single_spec(value).wf(),
    {
        assert(1 * (value as int) == value as int);
    }

    /// The statistic of the single observation `value`.
    pub fn single(value: i64) -> (s: Sample)
        ensures
            s == Sample::single_spec(value),
            s@ == SampleView::single(value as int),
            s.wf(),
    {
        let s = Sample { min: value, max: value, sum: value as i128, count: 1 };
        assert(1 * (value as int) == value as int);
        s
    }

    /// Takes one more observation into the statistic.
    pub fn add(&mut self, v: i64)
        requires
            old(self).wf(),
            old(self)@.count < u64::MAX,
        ensures
            final(self)@ == old(self)@.merge(SampleView::single(v as int)),
            final(self).wf(),
    {
        let one = Sample::single(v);
        self.merge(&one);
    }

    /// Takes the observations of `other` into the statistic.
    pub fn merge(&mut self, other: &Sample)
        requires
            old(self).wf(),
            other.wf(),
            old(self)@.count + other@.count <= u64::MAX,
        ensures
            final(self)@ == old(self)@.merge(other@),
            final(self).wf(),
    {
        proof {
            lemma_merge_wf(self@, other@);
            lemma_sum_bound(self@);
            lemma_sum_bound(other@);
        }
        if other.min < self.min {
            self.min = other.min;
        }
        if other.max > self.max {
            self.max = other.max;
        }
        self.sum = self.sum + other.sum;
        self.count = self.count + other.count;
    }

    /// The mean of the observations, to the nearest unit.
    pub fn mean(&self) -> (m: i64)
        requires
            self.wf(),
            self@.count > 0,
        ensures
            m == self@.mean(),
            self@.min <= m <= self@.max,
    {
        proof {
            lemma_sum_bound(self@);
            lemma_rounded_quotient_between(
                self.sum as int,
                self.count as int,
                self.min as int,
                self.max as int,
            );
        }
        round_div(self.sum, self.count as u128) as i64
    }

    /// The mean of the observations to one decimal place, counted in tenths.
    pub fn mean_tenths(&self) -> (m: i64)
        requires
            self.wf(),
            self@.count > 0,
        ensures
            m == self@.mean_tenths(),
    {
        let d: u128 = self.count as u128 * UNITS_PER_TENTH as u128;
        proof {
            lemma_sum_bound(self@);
            let c = self.count as int;
            assert(d * (i64::MIN as int) <= c * (i64::MIN as int)) by (nonlinear_arith)
                requires d == c * 100_000_000, c >= 0;
            assert(c * (i64::MAX as int) <= d * (i64::MAX as int)) by (nonlinear_arith)
                requires d == c * 100_000_000, c >= 0;
            lemma_rounded_quotient_between(
                self.sum as int,
                d as int,
                i64::MIN as int,
                i64::MAX as int,
            );
        }
        round_div(self.sum, d) as i64
    }

    /// The smallest observation; the largest representable value if there is none.
    pub fn min(&self) -> (v: i64)
        ensures
            v == self@.min,
    {
        self.min
    }

    /// The largest observation; the smallest representable value if there is none.
    pub fn max(&self) -> (v: i64)
        ensures
            v == self@.max,
    {
        self.max
    }

    /// The sum of the observations.
    pub fn sum(&self) -> (v: i128)
        ensures
            v == self@.sum,
    {
        self.sum
    }

    /// The number of observations.
    pub fn count(&self) -> (n: u64)
        ensures
            n == self@.count,
    {
        self.count
    }
}

/// The sum of `count` values of 64 bits stays far inside 128 bits.
pub proof fn lemma_sum_bound(a: SampleView)
    requires
        a.wf(),
    ensures
        a.count * (i64::MIN as int) <= a.sum <= a.count * (i64::MAX as int),
{
    if a.count > 0 {
        assert(a.count * (i64::MIN as int) <= a.count * a.min) by (nonlinear_arith)
            requires i64::MIN <= a.min, a.count >= 0;
        assert(a.count * a.max <= a.count * (i64::MAX as int)) by (nonlinear_arith)
            requires a.max <= i64::MAX, a.count >= 0;
    }
}

impl From<i64> for Sample {
    /// The statistic of the single observation `value`.
    fn from(value: i64) -> (s: Sample) {
        Sample::single(value)
    }
}

impl FromSpecImpl<i64> for Sample {
    open spec fn obeys_from_spec() -> bool {
        true
    }

    open spec fn from_spec(value: i64) -> Sample {
        Sample::single_spec(value)
    }
}

impl Default for Sample {
    /// The statistic of no observation: the neutral element of `merge`.
    fn default() -> (s: Sample)
        ensures
            s@ == SampleView::identity(),
            s.wf(),
    {
        Sample { min: i64::MAX, max: i64::MIN, sum: 0, count: 0 }
    }
}

} // verus!
