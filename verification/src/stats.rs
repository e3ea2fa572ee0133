//! Running per-group statistics in the scaled-integer domain, together
//! with their mathematical model: the statistics of a non-empty
//! sequence of observed values.

use vstd::prelude::*;

verus! {

use crate::MAX_OBSERVATIONS;
use crate::SCALED_MAX;

/// Mathematical summary of a non-empty sequence of observations.
pub ghost struct Stats {
    pub count: int,
    pub sum: int,
    pub min: int,
    pub max: int,
}

/// Sum of a sequence of values.
pub open spec fn sum_of(vs: Seq<int>) -> int
    decreases vs.len(),
{
    if vs.len() == 0 {
        0
    } else {
        sum_of(vs.drop_last()) + vs.last()
    }
}

/// Least element of a non-empty sequence of values.
pub open spec fn min_of(vs: Seq<int>) -> int
    decreases vs.len(),
{
    if vs.len() <= 1 {
        vs[0]
    } else {
        let m = min_of(vs.drop_last());
        if vs.last() < m {
            vs.last()
        } else {
            m
        }
    }
}

/// Greatest element of a non-empty sequence of values.
pub open spec fn max_of(vs: Seq<int>) -> int
    decreases vs.len(),
{
    if vs.len() <= 1 {
        vs[0]
    } else {
        let m = max_of(vs.drop_last());
        if vs.last() > m {
            vs.last()
        } else {
            m
        }
    }
}

/// The exact statistics of a sequence of observed values.
pub open spec fn stats_of(vs: Seq<int>) -> Stats {
    Stats { count: vs.len() as int, sum: sum_of(vs), min: min_of(vs), max: max_of(vs) }
}

/// Every value of the sequence is a possible decoded token value.
pub open spec fn all_in_range(vs: Seq<int>) -> bool {
    forall|i: int| 0 <= i < vs.len() ==> -SCALED_MAX <= #[trigger] vs[i] <= SCALED_MAX
}

/// Statistics of a single observation: one value is its own count of
/// one, its own sum, its own minimum and its own maximum.
pub proof fn lemma_stats_of_singleton(v: int)
    ensures
        stats_of(seq![v]) == (Stats { count: 1, sum: v, min: v, max: v }),
{
    let s = seq![v];
    assert(s.drop_last() =~= Seq::<int>::empty());
    assert(sum_of(s) == sum_of(s.drop_last()) + v);
    assert(sum_of(s.drop_last()) == 0);
}

/// One more observation folds into the statistics exactly: the count
/// grows by one, the value joins the sum, and at most one of the
/// extremes moves, to the new value.
pub proof fn lemma_stats_push(vs: Seq<int>, v: int)
    requires
        vs.len() > 0,
    ensures
        sum_of(vs.push(v)) == sum_of(vs) + v,
        min_of(vs.push(v)) == if v < min_of(vs) {
            v
        } else {
            min_of(vs)
        },
        max_of(vs.push(v)) == if v > max_of(vs) {
            v
        } else {
            max_of(vs)
        },
{
    assert(vs.push(v).drop_last() =~= vs);
    assert(vs.push(v).last() == v);
}

/// The minimum reported for a group is the true minimum: no observed
/// value is below it, and some observed value attains it.
pub proof fn lemma_min_of_is_minimum(vs: Seq<int>)
    requires
        vs.len() > 0,
    ensures
        forall|i: int| 0 <= i < vs.len() ==> min_of(vs) <= #[trigger] vs[i],
        exists|i: int| 0 <= i < vs.len() && #[trigger] vs[i] == min_of(vs),
    decreases vs.len(),
{
    if vs.len() == 1 {
        assert(vs[0] == min_of(vs));
    } else {
        let d = vs.drop_last();
        lemma_min_of_is_minimum(d);
        assert(forall|i: int| 0 <= i < d.len() ==> d[i] == #[trigger] vs[i]);
        if vs.last() < min_of(d) {
            assert(vs[vs.len() - 1] == min_of(vs));
        } else {
            let j = choose|i: int| 0 <= i < d.len() && #[trigger] d[i] == min_of(d);
            assert(vs[j] == min_of(vs));
        }
    }
}

/// The maximum reported for a group is the true maximum: no observed
/// value is above it, and some observed value attains it.
pub proof fn lemma_max_of_is_maximum(vs: Seq<int>)
    requires
        vs.len() > 0,
    ensures
        forall|i: int| 0 <= i < vs.len() ==> vs[i] <= max_of(vs),
        exists|i: int| 0 <= i < vs.len() && #[trigger] vs[i] == max_of(vs),
    decreases vs.len(),
{
    if vs.len() == 1 {
        assert(vs[0] == max_of(vs));
    } else {
        let d = vs.drop_last();
        lemma_max_of_is_maximum(d);
        assert(forall|i: int| 0 <= i < d.len() ==> d[i] == #[trigger] vs[i]);
        if vs.last() > max_of(d) {
            assert(vs[vs.len() - 1] == max_of(vs));
        } else {
            let j = choose|i: int| 0 <= i < d.len() && #[trigger] d[i] == max_of(d);
            assert(vs[j] == max_of(vs));
        }
    }
}

/// The sum of in-range values is bounded by the count times the largest
/// magnitude, which keeps the running sum inside `i64`.
pub proof fn lemma_sum_of_bounds(vs: Seq<int>)
    requires
        all_in_range(vs),
    ensures
        -SCALED_MAX * vs.len() <= sum_of(vs) <= SCALED_MAX * vs.len(),
    decreases vs.len(),
{
    if vs.len() > 0 {
        let d = vs.drop_last();
        assert(all_in_range(d)) by {
            assert(forall|i: int| 0 <= i < d.len() ==> d[i] == #[trigger] vs[i]);
        }
        lemma_sum_of_bounds(d);
        assert(-SCALED_MAX <= vs.last() <= SCALED_MAX);
    }
}

/// Merge of two group summaries: counts and sums add, the extremes take
/// the tighter of the two sides.
pub open spec fn merge_stats(a: Stats, b: Stats) -> Stats {
    Stats {
        count: a.count + b.count,
        sum: a.sum + b.sum,
        min: if b.min < a.min {
            b.min
        } else {
            a.min
        },
        max: if b.max > a.max {
            b.max
        } else {
            a.max
        },
    }
}

/// Merging partial statistics is commutative: either order of the two
/// sides yields the same summary.
pub proof fn lemma_merge_stats_commutative(a: Stats, b: Stats)
    ensures
        merge_stats(a, b) == merge_stats(b, a),
{
}

/// Merging partial statistics is associative: any grouping of three
/// sides yields the same summary.
pub proof fn lemma_merge_stats_associative(a: Stats, b: Stats, c: Stats)
    ensures
        merge_stats(merge_stats(a, b), c) == merge_stats(a, merge_stats(b, c)),
{
}

/// Merging is exact: the merge of the statistics of two partitions is
/// the statistics of the combined observations, so a partitioned run
/// reports exactly what a single pass would.
pub proof fn lemma_merge_stats_correct(xs: Seq<int>, ys: Seq<int>)
    requires
        xs.len() > 0,
        ys.len() > 0,
    ensures
        stats_of(xs + ys) == merge_stats(stats_of(xs), stats_of(ys)),
    decreases ys.len(),
{
    if ys.len() == 1 {
        assert(xs + ys =~= xs.push(ys[0]));
        lemma_stats_push(xs, ys[0]);
        lemma_stats_of_singleton(ys[0]);
        assert(ys =~= seq![ys[0]]);
    } else {
        let d = ys.drop_last();
        lemma_merge_stats_correct(xs, d);
        assert(xs + ys =~= (xs + d).push(ys.last()));
        lemma_stats_push(xs + d, ys.last());
        lemma_stats_push(d, ys.last());
        assert(d.push(ys.last()) =~= ys);
    }
}

/// Merging two partitions of a group in either order yields the same
/// statistics, so the final reports do not depend on the order in which
/// partial tables are combined.
pub proof fn lemma_merge_order_irrelevant(xs: Seq<int>, ys: Seq<int>)
    requires
        xs.len() > 0,
        ys.len() > 0,
    ensures
        stats_of(xs + ys) == stats_of(ys + xs),
{
    lemma_merge_stats_correct(xs, ys);
    lemma_merge_stats_correct(ys, xs);
    lemma_merge_stats_commutative(stats_of(xs), stats_of(ys));
}

/// Running aggregate of one group, updated in place once per record.
/// All fields live in the scaled-integer domain; `rolling_sum` is wide
/// enough for [`MAX_OBSERVATIONS`] additions of full-magnitude values.
#[derive(Clone, Copy, PartialEq, Eq, Structural, Debug)]
pub struct CityTemp {
    pub count: i64,
    pub rolling_sum: i64,
    pub max_temp: i64,
    pub min_temp: i64,
}

/// Truncating integer division: the quotient is rounded toward zero,
/// the documented meaning of a group's mean.
pub open spec fn spec_mean(sum: int, count: int) -> int
    recommends
        count > 0,
{
    if sum >= 0 {
        sum / count
    } else {
        -((-sum) / count)
    }
}

/// Report derived for one group when the table is drained: the exact
/// extremes and the truncating mean, all in the scaled domain.
#[derive(Clone, Copy, PartialEq, Eq, Structural, Debug)]
pub struct CityTempReport {
    pub min_temp: i64,
    pub max_temp: i64,
    pub mean_temp: i64,
}

impl CityTemp {
    /// This aggregate exactly summarizes the observation sequence `vs`.
    pub open spec fn models(self, vs: Seq<int>) -> bool {
        &&& vs.len() >= 1
        &&& all_in_range(vs)
        &&& self.count == stats_of(vs).count
        &&& self.rolling_sum == stats_of(vs).sum
        &&& self.min_temp == stats_of(vs).min
        &&& self.max_temp == stats_of(vs).max
    }

    /// An entry about to take its first observation: empty sum and
    /// count, with both extremes seeded at the first value.
    pub fn new(temp: i64) -> (r: CityTemp)
        ensures
            r.count == 0,
            r.rolling_sum == 0,
            r.max_temp == temp,
            r.min_temp == temp,
    {
        CityTemp { count: 0, rolling_sum: 0, max_temp: temp, min_temp: temp }
    }

    /// Folds one observation into the aggregate: the count grows by
    /// one, the value joins the sum, and at most one of the extremes
    /// moves, to the new value.
    pub fn add(&mut self, temp: i64)
        requires
            0 <= old(self).count < MAX_OBSERVATIONS,
            -SCALED_MAX <= temp <= SCALED_MAX,
            -SCALED_MAX * old(self).count <= old(self).rolling_sum,
            old(self).rolling_sum <= SCALED_MAX * old(self).count,
            old(self).min_temp <= old(self).max_temp,
        ensures
            final(self).count == old(self).count + 1,
            final(self).rolling_sum == old(self).rolling_sum + temp,
            final(self).max_temp == if temp > old(self).max_temp {
                temp
            } else {
                old(self).max_temp
            },
            final(self).min_temp == if temp < old(self).min_temp {
                temp
            } else {
                old(self).min_temp
            },
    {
        proof {
            let c = old(self).count as int;
            assert(SCALED_MAX * c <= SCALED_MAX * (MAX_OBSERVATIONS - 1) && -SCALED_MAX * (
            MAX_OBSERVATIONS - 1) <= -SCALED_MAX * c) by (nonlinear_arith)
                requires
                    c <= MAX_OBSERVATIONS - 1,
            ;
        }
        self.rolling_sum = self.rolling_sum + temp;
        self.count = self.count + 1;
        if temp > self.max_temp {
            self.max_temp = temp;
        } else if temp < self.min_temp {
            self.min_temp = temp;
        }
    }

    /// The truncating mean of the group, `sum / count` rounded toward
    /// zero in the scaled domain.
    pub fn mean(&self) -> (r: i64)
        requires
            1 <= self.count,
        ensures
            r == spec_mean(self.rolling_sum as int, self.count as int),
    {
        self.rolling_sum / self.count
    }

    /// Absorbs the aggregate of another partition of the same group:
    /// counts and sums add, the extremes take the tighter side.
    pub fn merge(&mut self, other: &CityTemp)
        requires
            0 <= old(self).count,
            0 <= other.count,
            old(self).count + other.count <= MAX_OBSERVATIONS,
            -SCALED_MAX * old(self).count <= old(self).rolling_sum,
            old(self).rolling_sum <= SCALED_MAX * old(self).count,
            -SCALED_MAX * other.count <= other.rolling_sum <= SCALED_MAX * other.count,
        ensures
            final(self).count == old(self).count + other.count,
            final(self).rolling_sum == old(self).rolling_sum + other.rolling_sum,
            final(self).min_temp == if other.min_temp < old(self).min_temp {
                other.min_temp
            } else {
                old(self).min_temp
            },
            final(self).max_temp == if other.max_temp > old(self).max_temp {
                other.max_temp
            } else {
                old(self).max_temp
            },
    {
        proof {
            let c = old(self).count as int;
            let d = other.count as int;
            vstd::arithmetic::mul::lemma_mul_is_distributive_add(SCALED_MAX as int, c, d);
            vstd::arithmetic::mul::lemma_mul_left_inequality(
                SCALED_MAX as int,
                c + d,
                MAX_OBSERVATIONS as int,
            );
            vstd::arithmetic::mul::lemma_mul_unary_negation(SCALED_MAX as int, c);
            vstd::arithmetic::mul::lemma_mul_unary_negation(SCALED_MAX as int, d);
            vstd::arithmetic::mul::lemma_mul_unary_negation(
                SCALED_MAX as int,
                MAX_OBSERVATIONS as int,
            );
            assert(-SCALED_MAX * MAX_OBSERVATIONS <= old(self).rolling_sum + other.rolling_sum
                <= SCALED_MAX * MAX_OBSERVATIONS);
        }
        self.rolling_sum = self.rolling_sum + other.rolling_sum;
        self.count = self.count + other.count;
        if other.min_temp < self.min_temp {
            self.min_temp = other.min_temp;
        }
        if other.max_temp > self.max_temp {
            self.max_temp = other.max_temp;
        }
    }

    /// Derives the group's report: the exact extremes and the
    /// truncating mean.
    pub fn report(&self) -> (r: CityTempReport)
        requires
            1 <= self.count,
        ensures
            r.min_temp == self.min_temp,
            r.max_temp == self.max_temp,
            r.mean_temp == spec_mean(self.rolling_sum as int, self.count as int),
    {
        CityTempReport { min_temp: self.min_temp, max_temp: self.max_temp, mean_temp: self.mean() }
    }
}

} // verus!
