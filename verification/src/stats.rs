//! Statistics of one key: the mathematical model and the machine record.

use vstd::arithmetic::div_mod::{
    lemma_div_is_ordered,
    lemma_fundamental_div_mod,
    lemma_fundamental_div_mod_converse,
};
use vstd::prelude::*;

verus! {

/// The statistics of the values observed under one key, in tenths.
pub struct Stats {
    /// The smallest value.
    pub min: int,
    /// The largest value.
    pub max: int,
    /// The sum of the values.
    pub sum: int,
    /// The number of values.
    pub count: nat,
}

impl Stats {
    /// The statistics after a single observation.
    pub open spec fn single(value: int) -> Stats {
        Stats { min: value, max: value, sum: value, count: 1 }
    }

    /// The statistics of two groups of observations taken together.
    pub open spec fn combine(self, other: Stats) -> Stats {
        Stats {
            min: if other.min < self.min { other.min } else { self.min },
            max: if other.max > self.max { other.max } else { self.max },
            sum: self.sum + other.sum,
            count: self.count + other.count,
        }
    }

    /// The statistics after one more observation.
    pub open spec fn observe(self, value: int) -> Stats {
        self.combine(Stats::single(value))
    }

    /// What holds of the statistics of any non-empty group of observations:
    /// the extremes are ordered and the sum lies between `count` times each.
    pub open spec fn wf(self) -> bool {
        &&& self.count >= 1
        &&& self.min <= self.max
        &&& self.count * self.min <= self.sum <= self.count * self.max
    }

    /// The mean of the values, rounded to the nearest tenth, a half upwards.
    pub open spec fn mean(self) -> int {
        (2 * self.sum + self.count) / (2 * self.count as int)
    }

    /// Whether every field fits the machine record.
    pub open spec fn fits(self) -> bool {
        &&& i64::MIN <= self.min
        &&& self.max <= i64::MAX
        &&& self.count <= u64::MAX
    }

    /// Combining keeps well-formedness.
    pub proof fn lemma_combine_wf(a: Stats, b: Stats)
        requires
            a.wf(),
            b.wf(),
        ensures
            a.combine(b).wf(),
    {
        let c = a.combine(b);
        assert(a.count * c.min <= a.count * a.min) by (nonlinear_arith)
            requires
                c.min <= a.min,
        ;
        assert(b.count * c.min <= b.count * b.min) by (nonlinear_arith)
            requires
                c.min <= b.min,
        ;
        assert(a.count * a.max <= a.count * c.max) by (nonlinear_arith)
            requires
                a.max <= c.max,
        ;
        assert(b.count * b.max <= b.count * c.max) by (nonlinear_arith)
            requires
                b.max <= c.max,
        ;
        assert(c.count * c.min == a.count * c.min + b.count * c.min) by (nonlinear_arith)
            requires
                c.count == a.count + b.count,
        ;
        assert(c.count * c.max == a.count * c.max + b.count * c.max) by (nonlinear_arith)
            requires
                c.count == a.count + b.count,
        ;
    }

    /// Combining is commutative.
    pub proof fn lemma_combine_commutative(a: Stats, b: Stats)
        ensures
            a.combine(b) == b.combine(a),
    {
    }

    /// Combining is associative.
    pub proof fn lemma_combine_associative(a: Stats, b: Stats, c: Stats)
        ensures
            a.combine(b).combine(c) == a.combine(b.combine(c)),
    {
    }

    /// The rounded mean lies between the extremes.
    pub proof fn lemma_mean_bounds(self)
        requires
            self.wf(),
        ensures
            self.min <= self.mean() <= self.max,
    {
        let c = self.count as int;
        let d = 2 * c;
        assert(2 * (c * self.min) + c == self.min * d + c) by (nonlinear_arith)
            requires
                d == 2 * c,
        ;
        assert(2 * (c * self.max) + c == self.max * d + c) by (nonlinear_arith)
            requires
                d == 2 * c,
        ;
        lemma_fundamental_div_mod_converse(self.min * d + c, d, self.min, c);
        lemma_fundamental_div_mod_converse(self.max * d + c, d, self.max, c);
        lemma_div_is_ordered(self.min * d + c, 2 * self.sum + c, d);
        lemma_div_is_ordered(2 * self.sum + c, self.max * d + c, d);
    }

    /// The sum of well-formed statistics whose fields fit the machine record
    /// fits 128 bits.
    pub proof fn lemma_sum_bounds(self)
        requires
            self.wf(),
            self.fits(),
        ensures
            i128::MIN < self.sum < i128::MAX,
    {
        assert(self.count * self.min >= self.count * i64::MIN) by (nonlinear_arith)
            requires
                self.min >= i64::MIN,
        ;
        assert(self.count * i64::MIN >= u64::MAX * i64::MIN) by (nonlinear_arith)
            requires
                self.count <= u64::MAX,
        ;
        assert(self.count * self.max <= self.count * i64::MAX) by (nonlinear_arith)
            requires
                self.max <= i64::MAX,
        ;
        assert(self.count * i64::MAX <= u64::MAX * i64::MAX) by (nonlinear_arith)
            requires
                self.count <= u64::MAX,
        ;
    }
}

/// The statistics of one key as the machine holds them: extremes and sum in
/// tenths, and the number of observations.
#[derive(Clone, Copy, Debug)]
pub struct StationData {
    min_temp: i64,
    max_temp: i64,
    sum_temp: i128,
    n: u64,
}

impl View for StationData {
    type V = Stats;

    closed spec fn view(&self) -> Stats {
        Stats {
            min: self.min_temp as int,
            max: self.max_temp as int,
            sum: self.sum_temp as int,
            count: self.n as nat,
        }
    }
}

impl StationData {
    /// Whether the record holds the statistics of a non-empty group.
    pub open spec fn wf(&self) -> bool {
        self@.wf()
    }

    /// The view of a record always fits the machine record.
    pub proof fn lemma_view_fits(&self)
        ensures
            self@.fits(),
    {
    }

    /// The statistics of a single observation.
    pub fn new(value: i64) -> (r: StationData)
        ensures
            r.wf(),
            r@ == Stats::single(value as int),
    {
        StationData { min_temp: value, max_temp: value, sum_temp: value as i128, n: 1 }
    }

    /// Folds one more observation into the record.
    pub fn observe(&mut self, value: i64)
        requires
            old(self).wf(),
            old(self)@.count < u64::MAX,
        ensures
            final(self).wf(),
            final(self)@ == old(self)@.observe(value as int),
    {
        let other = StationData::new(value);
        self.merge(&other);
    }

    /// Combines the record with the statistics of another group.
    pub fn merge(&mut self, other: &StationData)
        requires
            old(self).wf(),
            other.wf(),
            old(self)@.count + other@.count <= u64::MAX,
        ensures
            final(self).wf(),
            final(self)@ == old(self)@.combine(other@),
    {
        proof {
            let c = self@.combine(other@);
            Stats::lemma_combine_wf(self@, other@);
            c.lemma_sum_bounds();
        }
        if other.min_temp < self.min_temp {
            self.min_temp = other.min_temp;
        }
        if other.max_temp > self.max_temp {
            self.max_temp = other.max_temp;
        }
        self.sum_temp = self.sum_temp + other.sum_temp;
        self.n = self.n + other.n;
    }

    /// The mean of the values observed, rounded to the nearest tenth, a half
    /// upwards.
    pub fn mean(&self) -> (r: i64)
        requires
            self.wf(),
        ensures
            r == self@.mean(),
            self@.min <= r <= self@.max,
    {
        proof {
            self@.lemma_sum_bounds();
            self@.lemma_mean_bounds();
        }
        let count: u128 = self.n as u128;
        let ghost c = count as int;
        let ghost target = 2 * self.sum_temp + c;
        if self.sum_temp >= 0 {
            let total: u128 = self.sum_temp as u128;
            let q: u128 = total / count;
            let rest: u128 = total % count;
            proof {
                lemma_fundamental_div_mod(total as int, c);
            }
            if 2 * rest >= count {
                proof {
                    assert(target == (q + 1) * (2 * c) + (2 * rest - c)) by (nonlinear_arith)
                        requires
                            target == 2 * total + c,
                            total == c * q + rest,
                    ;
                    lemma_fundamental_div_mod_converse(target, 2 * c, q + 1, 2 * rest - c);
                }
                (q + 1) as i64
            } else {
                proof {
                    assert(target == q * (2 * c) + (2 * rest + c)) by (nonlinear_arith)
                        requires
                            target == 2 * total + c,
                            total == c * q + rest,
                    ;
                    lemma_fundamental_div_mod_converse(target, 2 * c, q as int, 2 * rest + c);
                }
                q as i64
            }
        } else {
            let total: u128 = (-self.sum_temp) as u128;
            let q: u128 = total / count;
            let rest: u128 = total % count;
            proof {
                lemma_fundamental_div_mod(total as int, c);
            }
            if 2 * rest > count {
                proof {
                    assert(target == (-(q + 1)) * (2 * c) + (3 * c - 2 * rest)) by (nonlinear_arith)
                        requires
                            target == c - 2 * total,
                            total == c * q + rest,
                    ;
                    lemma_fundamental_div_mod_converse(target, 2 * c, -(q + 1), 3 * c - 2 * rest);
                }
                (-((q + 1) as i128)) as i64
            } else {
                proof {
                    assert(target == (-q) * (2 * c) + (c - 2 * rest)) by (nonlinear_arith)
                        requires
                            target == c - 2 * total,
                            total == c * q + rest,
                    ;
                    lemma_fundamental_div_mod_converse(target, 2 * c, -q, c - 2 * rest);
                }
                (-(q as i128)) as i64
            }
        }
    }

    /// The smallest value observed, in tenths.
    pub fn min(&self) -> (r: i64)
        ensures
            r == self@.min,
    {
        self.min_temp
    }

    /// The largest value observed, in tenths.
    pub fn max(&self) -> (r: i64)
        ensures
            r == self@.max,
    {
        self.max_temp
    }

    /// The sum of the values observed, in tenths.
    pub fn sum(&self) -> (r: i128)
        ensures
            r == self@.sum,
    {
        self.sum_temp
    }

    /// The number of values observed.
    pub fn count(&self) -> (r: u64)
        ensures
            r == self@.count,
    {
        self.n
    }
}

} // verus!
