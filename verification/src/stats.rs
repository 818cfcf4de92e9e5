//! The exact accumulator for one key and its merge operation.
//!
//! A value is a fixed-point number of tenths, held as an `i64`. A `Stat`
//! holds the running count, sum, minimum and maximum of the values seen
//! for one key. The empty accumulator (count 0) is the merge identity:
//! its minimum and maximum are the extreme sentinels and its sum is 0.
use vstd::prelude::*;

verus! {

/// Mathematical model of an accumulator: unbounded integers.
pub ghost struct StatModel {
    pub count: int,
    pub sum: int,
    pub min: int,
    pub max: int,
}

/// A value fits the exec representation of tenths.
pub open spec fn fits_value(v: int) -> bool {
    i64::MIN <= v <= i64::MAX
}

/// The largest magnitude an `i64` value can have.
pub open spec fn val_mag() -> int {
    0x8000_0000_0000_0000
}

/// The merge identity: count 0, sum 0, sentinels for min and max.
pub open spec fn identity_model() -> StatModel {
    StatModel { count: 0, sum: 0, min: i64::MAX as int, max: i64::MIN as int }
}

/// Folding one more value into an accumulator.
pub open spec fn push_model(m: StatModel, v: int) -> StatModel {
    StatModel {
        count: m.count + 1,
        sum: m.sum + v,
        min: if v < m.min { v } else { m.min },
        max: if v > m.max { v } else { m.max },
    }
}

/// Merging two accumulators: counts and sums add, min and max combine.
pub open spec fn merge_model(a: StatModel, b: StatModel) -> StatModel {
    StatModel {
        count: a.count + b.count,
        sum: a.sum + b.sum,
        min: if a.min < b.min { a.min } else { b.min },
        max: if a.max > b.max { a.max } else { b.max },
    }
}

/// The exact statistics of a sequence of values: the accumulator reached
/// by folding every value of the sequence, in order, into the identity.
pub open spec fn stat_of(vals: Seq<int>) -> StatModel
    decreases vals.len(),
{
    if vals.len() == 0 {
        identity_model()
    } else {
        push_model(stat_of(vals.drop_last()), vals.last())
    }
}

/// Well-formedness of a model: what holds of every accumulator built from
/// values that fit `i64`. Count 0 is exactly the identity; otherwise the
/// minimum is a real value below the maximum; the sum is bounded by
/// count times the largest value magnitude.
pub open spec fn model_wf(m: StatModel) -> bool {
    &&& 0 <= m.count <= u64::MAX
    &&& i64::MIN <= m.min <= i64::MAX
    &&& i64::MIN <= m.max <= i64::MAX
    &&& (m.count == 0 ==> m == identity_model())
    &&& (m.count > 0 ==> m.min <= m.max)
    &&& -m.count * val_mag() <= m.sum <= m.count * val_mag()
}

proof fn lemma_sum_step(c: int, s: int, v: int)
    requires
        0 <= c,
        -c * val_mag() <= s <= c * val_mag(),
        -val_mag() <= v <= i64::MAX as int,
    ensures
        -(c + 1) * val_mag() <= s + v <= (c + 1) * val_mag(),
{
    assert(-(c + 1) * val_mag() <= s + v <= (c + 1) * val_mag())
        by (nonlinear_arith)
        requires
            0 <= c,
            -c * val_mag() <= s <= c * val_mag(),
            -val_mag() <= v <= i64::MAX as int;
}

proof fn lemma_sum_merge(c1: int, s1: int, c2: int, s2: int)
    requires
        0 <= c1,
        0 <= c2,
        -c1 * val_mag() <= s1 <= c1 * val_mag(),
        -c2 * val_mag() <= s2 <= c2 * val_mag(),
    ensures
        -(c1 + c2) * val_mag() <= s1 + s2 <= (c1 + c2) * val_mag(),
{
    assert(-(c1 + c2) * val_mag() <= s1 + s2 <= (c1 + c2) * val_mag())
        by (nonlinear_arith)
        requires
            0 <= c1,
            0 <= c2,
            -c1 * val_mag() <= s1 <= c1 * val_mag(),
            -c2 * val_mag() <= s2 <= c2 * val_mag();
}

/// A well-formed accumulator's sum fits an `i128`.
proof fn lemma_sum_fits_i128(m: StatModel)
    requires
        model_wf(m),
    ensures
        i128::MIN < m.sum < i128::MAX,
{
    assert(m.count * val_mag() <= (u64::MAX as int) * val_mag()) by (nonlinear_arith)
        requires 0 <= m.count <= u64::MAX;
    assert(-(m.count * val_mag()) >= -((u64::MAX as int) * val_mag()));
    assert((u64::MAX as int) * val_mag() < i128::MAX);
}

/// The exact statistics for one key: count of values, their sum, their
/// minimum and their maximum, all over fixed-point tenths.
#[derive(Clone, Copy, Debug)]
pub struct Stat {
    pub count: u64,
    pub sum: i128,
    pub min: i64,
    pub max: i64,
}

impl View for Stat {
    type V = StatModel;

    open spec fn view(&self) -> StatModel {
        StatModel {
            count: self.count as int,
            sum: self.sum as int,
            min: self.min as int,
            max: self.max as int,
        }
    }
}

impl Stat {
    /// The accumulator is a faithful representative of a well-formed model.
    pub open spec fn wf(self) -> bool {
        model_wf(self@)
    }

    /// The empty accumulator: the merge identity, never displayed.
    pub fn identity() -> (r: Stat)
        ensures
            r@ == identity_model(),
            r.wf(),
    {
        Stat { count: 0, sum: 0, min: i64::MAX, max: i64::MIN }
    }

    /// Fold one value into the accumulator.
    pub fn add(&mut self, v: i64)
        requires
            old(self).wf(),
            old(self).count < u64::MAX,
        ensures
            final(self).wf(),
            final(self)@ == push_model(old(self)@, v as int),
    {
        proof {
            lemma_sum_step(self.count as int, self.sum as int, v as int);
            lemma_sum_fits_i128(StatModel {
                count: self.count as int + 1,
                sum: self.sum as int + v as int,
                min: if (v as int) < self@.min { v as int } else { self@.min },
                max: if (v as int) > self@.max { v as int } else { self@.max },
            });
        }
        self.count = self.count + 1;
        self.sum = self.sum + (v as i128);
        if v < self.min {
            self.min = v;
        }
        if v > self.max {
            self.max = v;
        }
    }

    /// Merge another accumulator into a fresh one; counts and sums add,
    /// minima and maxima combine.
    pub fn merge(&self, other: &Stat) -> (r: Stat)
        requires
            self.wf(),
            other.wf(),
            self.count + other.count <= u64::MAX,
        ensures
            r.wf(),
            r@ == merge_model(self@, other@),
    {
        proof {
            lemma_sum_merge(
                self.count as int,
                self.sum as int,
                other.count as int,
                other.sum as int,
            );
            lemma_sum_fits_i128(merge_model(self@, other@));
        }
        Stat {
            count: self.count + other.count,
            sum: self.sum + other.sum,
            min: if self.min < other.min { self.min } else { other.min },
            max: if self.max > other.max { self.max } else { other.max },
        }
    }
}

/// Merging accumulators is commutative.
pub proof fn lemma_merge_commutative(a: StatModel, b: StatModel)
    ensures
        merge_model(a, b) == merge_model(b, a),
{
}

/// Merging accumulators is associative.
pub proof fn lemma_merge_associative(a: StatModel, b: StatModel, c: StatModel)
    ensures
        merge_model(merge_model(a, b), c) == merge_model(a, merge_model(b, c)),
{
}

/// The empty accumulator is a two-sided identity for merging.
pub proof fn lemma_merge_identity(m: StatModel)
    requires
        model_wf(m),
    ensures
        merge_model(identity_model(), m) == m,
        merge_model(m, identity_model()) == m,
{
}

/// The statistics of a sequence of representable values form a
/// well-formed model whose count is the length of the sequence.
pub proof fn lemma_stat_of_wf(vals: Seq<int>)
    requires
        forall|i: int| 0 <= i < vals.len() ==> fits_value(#[trigger] vals[i]),
        vals.len() <= u64::MAX,
    ensures
        model_wf(stat_of(vals)),
        stat_of(vals).count == vals.len(),
    decreases vals.len(),
{
    if vals.len() == 0 {
    } else {
        lemma_stat_of_wf(vals.drop_last());
        lemma_sum_step(
            stat_of(vals.drop_last()).count,
            stat_of(vals.drop_last()).sum,
            vals.last(),
        );
    }
}

/// Splitting a sequence of values anywhere and merging the two halves'
/// statistics gives the statistics of the whole sequence: the heart of
/// why per-worker tables can be reduced exactly.
pub proof fn lemma_stat_of_concat(a: Seq<int>, b: Seq<int>)
    requires
        forall|i: int| 0 <= i < a.len() ==> fits_value(#[trigger] a[i]),
        a.len() <= u64::MAX,
    ensures
        stat_of(a + b) == merge_model(stat_of(a), stat_of(b)),
    decreases b.len(),
{
    if b.len() == 0 {
        assert(a + b =~= a);
        lemma_stat_of_wf(a);
        lemma_merge_identity(stat_of(a));
    } else {
        lemma_stat_of_concat(a, b.drop_last());
        assert((a + b).drop_last() =~= a + b.drop_last());
        assert((a + b).last() == b.last());
    }
}

/// The statistics are exact: the count is the number of values, every
/// value lies between the minimum and the maximum, and both bounds are
/// attained by some value.
pub proof fn lemma_stat_of_exact(vals: Seq<int>)
    requires
        vals.len() > 0,
        forall|i: int| 0 <= i < vals.len() ==> fits_value(#[trigger] vals[i]),
        vals.len() <= u64::MAX,
    ensures
        stat_of(vals).count == vals.len(),
        forall|i: int| 0 <= i < vals.len() ==> stat_of(vals).min <= #[trigger] vals[i] <= stat_of(vals).max,
        exists|i: int| 0 <= i < vals.len() && vals[i] == stat_of(vals).min,
        exists|i: int| 0 <= i < vals.len() && vals[i] == stat_of(vals).max,
    decreases vals.len(),
{
    lemma_stat_of_wf(vals);
    if vals.len() == 1 {
        assert(vals[0] == vals.last());
        assert(vals.drop_last().len() == 0);
        assert(stat_of(vals.drop_last()) == identity_model());
        assert(vals[0] == stat_of(vals).min);
        assert(vals[0] == stat_of(vals).max);
    } else {
        lemma_stat_of_exact(vals.drop_last());
        let m = stat_of(vals.drop_last());
        assert(forall|i: int| 0 <= i < vals.len() - 1 ==> #[trigger] vals[i] == vals.drop_last()[i]);
        if stat_of(vals).min == vals.last() {
            assert(vals[vals.len() - 1] == stat_of(vals).min);
        } else {
            let i = choose|i: int| 0 <= i < vals.drop_last().len() && vals.drop_last()[i] == m.min;
            assert(vals[i] == stat_of(vals).min);
        }
        if stat_of(vals).max == vals.last() {
            assert(vals[vals.len() - 1] == stat_of(vals).max);
        } else {
            let i = choose|i: int| 0 <= i < vals.drop_last().len() && vals.drop_last()[i] == m.max;
            assert(vals[i] == stat_of(vals).max);
        }
    }
}

} // verus!
