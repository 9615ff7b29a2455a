//! Per-key statistics and the aggregation algebra.
//!
//! A measurement is kept as a fixed-point integer (the decimal value times
//! ten), so accumulation is exact; the mean is derived only at report time.

use vstd::prelude::*;

verus! {

/// Largest magnitude a fixed-point measurement may take. Small enough that a
/// sum of `u64::MAX` such values still fits in an `i128`.
pub const VAL_LIMIT: i64 = 999_999_999_999_999_999;

/// Mathematical model of one key's statistics.
pub ghost struct StatsView {
    pub min: int,
    pub max: int,
    pub count: int,
    pub sum: int,
}

impl StatsView {
    /// A well-formed statistic summarises at least one measurement, each of
    /// magnitude at most `VAL_LIMIT`, so the sum is bracketed by
    /// `count * min` and `count * max`.
    pub open spec fn wf(self) -> bool {
        &&& -VAL_LIMIT <= self.min <= self.max <= VAL_LIMIT
        &&& 1 <= self.count
        &&& self.count * self.min <= self.sum <= self.count * self.max
    }
}

/// The statistics of a single measurement `v`.
pub open spec fn singleton_stats(v: int) -> StatsView {
    StatsView { min: v, max: v, count: 1, sum: v }
}

/// The aggregation algebra: statistics of the union of two measurement
/// collections.
pub open spec fn combine_stats(a: StatsView, b: StatsView) -> StatsView {
    StatsView {
        min: if a.min <= b.min { a.min } else { b.min },
        max: if a.max >= b.max { a.max } else { b.max },
        count: a.count + b.count,
        sum: a.sum + b.sum,
    }
}

/// `combine_stats` is commutative.
pub proof fn lemma_combine_stats_commutative(a: StatsView, b: StatsView)
    ensures
        combine_stats(a, b) == combine_stats(b, a),
{
}

/// `combine_stats` is associative.
pub proof fn lemma_combine_stats_associative(a: StatsView, b: StatsView, c: StatsView)
    ensures
        combine_stats(combine_stats(a, b), c) == combine_stats(a, combine_stats(b, c)),
{
}

/// Combining well-formed statistics yields well-formed statistics.
pub proof fn lemma_combine_stats_wf(a: StatsView, b: StatsView)
    requires
        a.wf(),
        b.wf(),
    ensures
        combine_stats(a, b).wf(),
{
    let c = combine_stats(a, b);
    assert(c.count * c.min <= c.sum) by (nonlinear_arith)
        requires
            a.count * a.min <= a.sum,
            b.count * b.min <= b.sum,
            a.count >= 1,
            b.count >= 1,
            c.min <= a.min,
            c.min <= b.min,
            c.count == a.count + b.count,
            c.sum == a.sum + b.sum,
    {}
    assert(c.sum <= c.count * c.max) by (nonlinear_arith)
        requires
            a.sum <= a.count * a.max,
            b.sum <= b.count * b.max,
            a.count >= 1,
            b.count >= 1,
            c.max >= a.max,
            c.max >= b.max,
            c.count == a.count + b.count,
            c.sum == a.sum + b.sum,
    {}
}

/// Running statistics for one key: minimum, maximum, occurrence count and
/// exact fixed-point sum. The mean is never stored; it is derived at report
/// time from `temp_sum` and `count`.
#[derive(Clone, Copy, PartialEq, Eq, Debug)]
pub struct StationData {
    pub min_temp: i64,
    pub max_temp: i64,
    pub count: u64,
    pub temp_sum: i128,
}

impl View for StationData {
    type V = StatsView;

    open spec fn view(&self) -> StatsView {
        StatsView {
            min: self.min_temp as int,
            max: self.max_temp as int,
            count: self.count as int,
            sum: self.temp_sum as int,
        }
    }
}

impl StationData {
    /// Statistics of a single measurement.
    pub fn new(temp: i64) -> (r: Self)
        requires
            -VAL_LIMIT <= temp <= VAL_LIMIT,
        ensures
            r@ == singleton_stats(temp as int),
            r@.wf(),
    {
        Self { min_temp: temp, max_temp: temp, count: 1, temp_sum: temp as i128 }
    }

    /// Fold one more measurement into the statistics.
    pub fn update_from(&mut self, temp: i64)
        requires
            old(self)@.wf(),
            -VAL_LIMIT <= temp <= VAL_LIMIT,
            old(self)@.count < u64::MAX,
        ensures
            final(self)@ == combine_stats(old(self)@, singleton_stats(temp as int)),
            final(self)@.wf(),
    {
        proof {
            lemma_combine_stats_wf(self@, singleton_stats(temp as int));
            lemma_sum_in_i128(self@);
            lemma_sum_in_i128(combine_stats(self@, singleton_stats(temp as int)));
        }
        self.max_temp = if self.max_temp >= temp { self.max_temp } else { temp };
        self.min_temp = if self.min_temp <= temp { self.min_temp } else { temp };
        self.count = self.count + 1;
        self.temp_sum = self.temp_sum + temp as i128;
    }

    /// Fold another key's statistics (for the same key) into these.
    pub fn update_from_station(&mut self, src: &Self)
        requires
            old(self)@.wf(),
            src@.wf(),
            old(self)@.count + src@.count <= u64::MAX,
        ensures
            final(self)@ == combine_stats(old(self)@, src@),
            final(self)@.wf(),
    {
        proof {
            lemma_combine_stats_wf(self@, src@);
            lemma_sum_in_i128(self@);
            lemma_sum_in_i128(src@);
            lemma_sum_in_i128(combine_stats(self@, src@));
        }
        self.max_temp = if self.max_temp >= src.max_temp { self.max_temp } else { src.max_temp };
        self.min_temp = if self.min_temp <= src.min_temp { self.min_temp } else { src.min_temp };
        self.temp_sum = self.temp_sum + src.temp_sum;
        self.count = self.count + src.count;
    }
}

/// The sum of a well-formed statistic with at most `u64::MAX` measurements
/// fits comfortably in an `i128`.
pub proof fn lemma_sum_in_i128(s: StatsView)
    requires
        s.wf(),
        s.count <= u64::MAX,
    ensures
        -(u64::MAX as int) * (VAL_LIMIT as int) <= s.sum <= (u64::MAX as int) * (VAL_LIMIT as int),
{
    assert(s.count * s.min >= -(u64::MAX as int) * (VAL_LIMIT as int)) by (nonlinear_arith)
        requires
            1 <= s.count <= u64::MAX,
            -VAL_LIMIT <= s.min,
    {}
    assert(s.count * s.max <= (u64::MAX as int) * (VAL_LIMIT as int)) by (nonlinear_arith)
        requires
            1 <= s.count <= u64::MAX,
            s.max <= VAL_LIMIT,
    {}
}

} // verus!
