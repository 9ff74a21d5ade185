//! Per-key running statistics: count, minimum, maximum and sum of values in
//! tenths, with `add` and an associative, commutative `merge`.

use vstd::prelude::*;

verus! {

/// The mathematical content of a `Record`.
pub ghost struct RecordModel {
    pub count: int,
    pub min: int,
    pub max: int,
    pub sum: int,
}

/// The statistics of no values: the minimum and maximum hold their sentinel
/// extremes and merging with it changes nothing.
pub open spec fn empty_model() -> RecordModel {
    RecordModel { count: 0, min: i32::MAX as int, max: i32::MIN as int, sum: 0 }
}

pub open spec fn model_add(r: RecordModel, v: int) -> RecordModel {
    RecordModel {
        count: r.count + 1,
        min: if v < r.min {
            v
        } else {
            r.min
        },
        max: if v > r.max {
            v
        } else {
            r.max
        },
        sum: r.sum + v,
    }
}

pub open spec fn model_merge(a: RecordModel, b: RecordModel) -> RecordModel {
    RecordModel {
        count: a.count + b.count,
        min: if a.min < b.min {
            a.min
        } else {
            b.min
        },
        max: if a.max > b.max {
            a.max
        } else {
            b.max
        },
        sum: a.sum + b.sum,
    }
}

/// The statistics of a whole sequence of values, accumulated in one pass.
pub open spec fn model_of_values(vs: Seq<int>) -> RecordModel
    decreases vs.len(),
{
    if vs.len() == 0 {
        empty_model()
    } else {
        model_add(model_of_values(vs.drop_last()), vs.last())
    }
}

/// Merging is commutative.
pub proof fn lemma_merge_comm(a: RecordModel, b: RecordModel)
    ensures
        model_merge(a, b) == model_merge(b, a),
{
}

/// Merging is associative.
pub proof fn lemma_merge_assoc(a: RecordModel, b: RecordModel, c: RecordModel)
    ensures
        model_merge(model_merge(a, b), c) == model_merge(a, model_merge(b, c)),
{
}

/// One-pass aggregation never raises the minimum above its sentinel nor
/// lowers the maximum below its sentinel, and counts every value once.
pub proof fn lemma_model_of_values_bounds(vs: Seq<int>)
    ensures
        model_of_values(vs).min <= i32::MAX,
        model_of_values(vs).max >= i32::MIN,
        model_of_values(vs).count == vs.len(),
    decreases vs.len(),
{
    if vs.len() > 0 {
        lemma_model_of_values_bounds(vs.drop_last());
    }
}

/// Aggregating two groups of values separately and merging the results gives
/// exactly the statistics of aggregating their concatenation in one pass.
pub proof fn lemma_split_aggregation(xs: Seq<int>, ys: Seq<int>)
    requires
        forall|i: int| 0 <= i < ys.len() ==> i32::MIN <= #[trigger] ys[i] <= i32::MAX,
    ensures
        model_of_values(xs + ys) == model_merge(model_of_values(xs), model_of_values(ys)),
    decreases ys.len(),
{
    lemma_model_of_values_bounds(xs);
    if ys.len() == 0 {
        assert(xs + ys =~= xs);
    } else {
        let ys0 = ys.drop_last();
        assert(forall|i: int| 0 <= i < ys0.len() ==> i32::MIN <= #[trigger] ys0[i] <= i32::MAX);
        lemma_split_aggregation(xs, ys0);
        lemma_model_of_values_bounds(ys0);
        assert((xs + ys).drop_last() =~= xs + ys0);
        assert((xs + ys).last() == ys.last());
    }
}

/// Running statistics of the values seen under one key, held as exact
/// fixed-point tenths.
#[derive(Clone, Copy)]
pub struct Record {
    pub count: u64,
    pub min: i32,
    pub max: i32,
    pub sum: i128,
}

impl View for Record {
    type V = RecordModel;

    open spec fn view(&self) -> RecordModel {
        RecordModel {
            count: self.count as int,
            min: self.min as int,
            max: self.max as int,
            sum: self.sum as int,
        }
    }
}

impl Record {
    /// The record of no values.
    pub fn default() -> (r: Record)
        ensures
            r@ == empty_model(),
    {
        Record { count: 0, min: i32::MAX, max: i32::MIN, sum: 0 }
    }

    /// Folds one value into the statistics.
    pub fn add(&mut self, value: i32)
        requires
            old(self)@.count + 1 <= u64::MAX,
            i128::MIN <= old(self)@.sum + value <= i128::MAX,
        ensures
            final(self)@ == model_add(old(self)@, value as int),
    {
        self.count = self.count + 1;
        self.sum = self.sum + (value as i128);
        if value < self.min {
            self.min = value;
        }
        if value > self.max {
            self.max = value;
        }
    }

    /// Combines another record's contributions into this one, as if its
    /// values had been added here directly.
    pub fn merge(&mut self, other: &Record)
        requires
            old(self)@.count + other@.count <= u64::MAX,
            i128::MIN <= old(self)@.sum + other@.sum <= i128::MAX,
        ensures
            final(self)@ == model_merge(old(self)@, other@),
    {
        self.count = self.count + other.count;
        self.sum = self.sum + other.sum;
        if other.min < self.min {
            self.min = other.min;
        }
        if other.max > self.max {
            self.max = other.max;
        }
    }

    /// The arithmetic mean of the added values, as tenths truncated toward
    /// zero.
    pub fn avg(&self) -> (r: i128)
        requires
            self@.count > 0,
            self@.sum > i128::MIN,
        ensures
            r as int == trunc_div(self@.sum, self@.count),
    {
        let c: u128 = self.count as u128;
        if self.sum >= 0 {
            let q: u128 = (self.sum as u128) / c;
            q as i128
        } else {
            let m: u128 = (-self.sum) as u128;
            let q: u128 = m / c;
            -(q as i128)
        }
    }
}

/// Integer division truncated toward zero, for a positive divisor.
pub open spec fn trunc_div(a: int, b: int) -> int {
    if a >= 0 {
        a / b
    } else {
        -((-a) / b)
    }
}

} // verus!
