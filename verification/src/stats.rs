//! Per-key running statistics: count, minimum, maximum and sum of the values seen.
//!
//! Values are integers (tenths). `Totals` is the mathematical model; `StationReadings` is
//! the machine representation that the aggregator updates in place.

use vstd::prelude::*;

verus! {

/// Running statistics of a multiset of values, in mathematical integers.
///
/// With no value seen, `min` and `max` hold the largest and the smallest `i32`, so that
/// taking the minimum or maximum with any value gives that value.
pub struct Totals {
    pub count: nat,
    pub min: int,
    pub max: int,
    pub sum: int,
}

/// The smaller of two integers.
pub open spec fn least(a: int, b: int) -> int {
    if a <= b {
        a
    } else {
        b
    }
}

/// The larger of two integers.
pub open spec fn greatest(a: int, b: int) -> int {
    if a >= b {
        a
    } else {
        b
    }
}

impl Totals {
    /// Statistics of no value at all.
    pub open spec fn empty() -> Totals {
        Totals { count: 0, min: i32::MAX as int, max: i32::MIN as int, sum: 0 }
    }

    /// The update rule: statistics after one more value.
    pub open spec fn observe(self, value: int) -> Totals {
        Totals {
            count: self.count + 1,
            min: least(self.min, value),
            max: greatest(self.max, value),
            sum: self.sum + value,
        }
    }

    /// Statistics of two sets of values taken together.
    pub open spec fn combine(self, other: Totals) -> Totals {
        Totals {
            count: self.count + other.count,
            min: least(self.min, other.min),
            max: greatest(self.max, other.max),
            sum: self.sum + other.sum,
        }
    }

    /// What holds of the statistics of any multiset of `i32` values: nothing seen means
    /// `empty()`, and otherwise `min <= max`, both are `i32` values, and the sum lies between
    /// `count * min` and `count * max`, so that the mean lies between `min` and `max`.
    pub open spec fn valid(self) -> bool {
        if self.count == 0 {
            self == Totals::empty()
        } else {
            &&& i32::MIN <= self.min <= self.max <= i32::MAX
            &&& self.count * self.min <= self.sum <= self.count * self.max
        }
    }

    /// Observing a value is combining with the statistics of that value alone.
    pub proof fn lemma_observe_is_combine(self, value: int)
        requires
            i32::MIN <= value <= i32::MAX,
        ensures
            self.observe(value) == self.combine(Totals::empty().observe(value)),
    {
    }

    /// Combining with `empty()` changes nothing.
    pub proof fn lemma_combine_empty(self)
        requires
            self.valid(),
        ensures
            self.combine(Totals::empty()) == self,
            Totals::empty().combine(self) == self,
    {
    }

    /// The order of the two operands of `combine` does not matter.
    pub proof fn lemma_combine_commutes(self, other: Totals)
        ensures
            self.combine(other) == other.combine(self),
    {
    }

    /// Combining three statistics gives the same result however they are grouped.
    pub proof fn lemma_combine_associates(self, second: Totals, third: Totals)
        ensures
            self.combine(second).combine(third) == self.combine(second.combine(third)),
    {
    }

    /// Observing an `i32` value keeps statistics valid.
    pub proof fn lemma_observe_valid(self, value: int)
        requires
            self.valid(),
            i32::MIN <= value <= i32::MAX,
        ensures
            self.observe(value).valid(),
    {
        let after = self.observe(value);
        if self.count > 0 {
            let c = self.count as int;
            assert(c * after.min <= c * self.min) by (nonlinear_arith)
                requires
                    0 <= c,
                    after.min <= self.min,
            ;
            assert(c * self.max <= c * after.max) by (nonlinear_arith)
                requires
                    0 <= c,
                    self.max <= after.max,
            ;
            assert((c + 1) * after.min == c * after.min + after.min) by (nonlinear_arith);
            assert((c + 1) * after.max == c * after.max + after.max) by (nonlinear_arith);
        } else {
            assert(1 * value == value);
        }
    }

    /// Combining valid statistics gives valid statistics.
    pub proof fn lemma_combine_valid(self, other: Totals)
        requires
            self.valid(),
            other.valid(),
        ensures
            self.combine(other).valid(),
    {
        let both = self.combine(other);
        if self.count > 0 && other.count > 0 {
            let a = self.count as int;
            let b = other.count as int;
            assert(a * both.min <= a * self.min) by (nonlinear_arith)
                requires
                    0 <= a,
                    both.min <= self.min,
            ;
            assert(b * both.min <= b * other.min) by (nonlinear_arith)
                requires
                    0 <= b,
                    both.min <= other.min,
            ;
            assert(a * self.max <= a * both.max) by (nonlinear_arith)
                requires
                    0 <= a,
                    self.max <= both.max,
            ;
            assert(b * other.max <= b * both.max) by (nonlinear_arith)
                requires
                    0 <= b,
                    other.max <= both.max,
            ;
            assert((a + b) * both.min == a * both.min + b * both.min) by (nonlinear_arith);
            assert((a + b) * both.max == a * both.max + b * both.max) by (nonlinear_arith);
        }
    }

    /// The sum of valid statistics is bounded by the count times the `i32` range.
    pub proof fn lemma_sum_bounds(self)
        requires
            self.valid(),
        ensures
            self.count * (i32::MIN as int) <= self.sum <= self.count * (i32::MAX as int),
    {
        let c = self.count as int;
        if self.count > 0 {
            assert(c * (i32::MIN as int) <= c * self.min) by (nonlinear_arith)
                requires
                    0 <= c,
                    i32::MIN as int <= self.min,
            ;
            assert(c * self.max <= c * (i32::MAX as int)) by (nonlinear_arith)
                requires
                    0 <= c,
                    self.max <= i32::MAX as int,
            ;
        }
    }
}

/// Running statistics of one key, as the aggregator holds them.
///
/// The sum is held in 128 bits. A table sees at most `usize::MAX` values, each an `i32`, so
/// the sum of any key fits whatever the input, and accumulation needs no overflow check.
#[derive(Clone, Copy, Debug, PartialEq, Eq, Structural)]
pub struct StationReadings {
    count: usize,
    min: i32,
    max: i32,
    sum: i128,
}

impl View for StationReadings {
    type V = Totals;

    closed spec fn view(&self) -> Totals {
        Totals {
            count: self.count as nat,
            min: self.min as int,
            max: self.max as int,
            sum: self.sum as int,
        }
    }
}

impl StationReadings {
    /// The statistics held are those of some multiset of `i32` values.
    pub open spec fn valid(self) -> bool {
        self@.valid()
    }

    /// Statistics of a key of which no value was seen yet.
    pub fn new() -> (fresh: Self)
        ensures
            fresh@ == Totals::empty(),
            fresh.valid(),
    {
        StationReadings { count: 0, min: i32::MAX, max: i32::MIN, sum: 0 }
    }

    /// Number of values seen.
    pub fn count(&self) -> (n: usize)
        ensures
            n == self@.count,
    {
        self.count
    }

    /// Smallest value seen; the largest `i32` when none was.
    pub fn min(&self) -> (m: i32)
        ensures
            m == self@.min,
    {
        self.min
    }

    /// Largest value seen; the smallest `i32` when none was.
    pub fn max(&self) -> (m: i32)
        ensures
            m == self@.max,
    {
        self.max
    }

    /// Sum of the values seen.
    pub fn sum(&self) -> (s: i128)
        ensures
            s == self@.sum,
    {
        self.sum
    }

    /// Applies the update rule for one more value.
    pub fn record(&mut self, value: i32)
        requires
            old(self).valid(),
            old(self)@.count < usize::MAX,
        ensures
            final(self)@ == old(self)@.observe(value as int),
            final(self).valid(),
    {
        proof {
            self@.lemma_sum_bounds();
            self@.lemma_observe_valid(value as int);
            assert(self@.count * (i32::MIN as int) >= (usize::MAX as int) * (i32::MIN as int))
                by (nonlinear_arith)
                requires
                    0 <= self@.count <= usize::MAX,
            ;
            assert(self@.count * (i32::MAX as int) <= (usize::MAX as int) * (i32::MAX as int))
                by (nonlinear_arith)
                requires
                    0 <= self@.count <= usize::MAX,
            ;
        }
        self.count = self.count + 1;
        if value < self.min {
            self.min = value;
        }
        if value > self.max {
            self.max = value;
        }
        self.sum = self.sum + value as i128;
    }

    /// Takes in the statistics that another worker gathered for the same key.
    pub fn merge(&mut self, other: &StationReadings)
        requires
            old(self).valid(),
            other.valid(),
            old(self)@.count + other@.count <= usize::MAX,
        ensures
            final(self)@ == old(self)@.combine(other@),
            final(self).valid(),
    {
        proof {
            self@.lemma_sum_bounds();
            other@.lemma_sum_bounds();
            self@.lemma_combine_valid(other@);
            self@.combine(other@).lemma_sum_bounds();
            let total = self@.count + other@.count;
            assert(total * (i32::MIN as int) >= (usize::MAX as int) * (i32::MIN as int))
                by (nonlinear_arith)
                requires
                    0 <= total <= usize::MAX,
            ;
            assert(total * (i32::MAX as int) <= (usize::MAX as int) * (i32::MAX as int))
                by (nonlinear_arith)
                requires
                    0 <= total <= usize::MAX,
            ;
        }
        self.count = self.count + other.count;
        if other.min < self.min {
            self.min = other.min;
        }
        if other.max > self.max {
            self.max = other.max;
        }
        self.sum = self.sum + other.sum;
    }
}

} // verus!
