//! Scoring a trained classifier against held-out data: confusion-matrix
//! counts and the derived metrics, kept as exact rationals.

use vstd::prelude::*;

use crate::model::Model;
use crate::record::{dataset_view, ProcessedPatientRecord, RecordView};

verus! {

/// An exact non-negative rational number with a positive denominator.
#[derive(Clone, Copy, Debug, PartialEq, Eq, Structural)]
pub struct Ratio {
    pub num: u64,
    pub den: u64,
}

/// Two ratios denote the same value when they cross-multiply equally.
pub open spec fn ratio_eq(a: Ratio, b: Ratio) -> bool {
    a.num * b.den == b.num * a.den
}

impl Ratio {
    pub open spec fn wf(&self) -> bool {
        self.den > 0
    }

    pub fn new(num: u64, den: u64) -> (r: Ratio)
        requires
            den > 0,
        ensures
            r == (Ratio { num, den }),
            r.wf(),
    {
        Ratio { num, den }
    }

    /// The exact rational zero.
    pub fn zero() -> (r: Ratio)
        ensures
            r == (Ratio { num: 0, den: 1 }),
            r.wf(),
    {
        Ratio { num: 0, den: 1 }
    }

    /// Whether `self` and `other` denote the same rational value.
    pub fn equals(&self, other: &Ratio) -> (b: bool)
        ensures
            b == ratio_eq(*self, *other),
    {
        proof {
            assert(self.num as u128 * other.den as u128 <= u128::MAX) by (nonlinear_arith)
                requires
                    self.num <= u64::MAX && other.den <= u64::MAX,
            ;
            assert(other.num as u128 * self.den as u128 <= u128::MAX) by (nonlinear_arith)
                requires
                    other.num <= u64::MAX && self.den <= u64::MAX,
            ;
        }
        self.num as u128 * other.den as u128 == other.num as u128 * self.den as u128
    }
}

/// Confusion-matrix-derived metrics of one evaluation, as exact rationals.
#[derive(Clone, Copy, Debug)]
pub struct Metrics {
    pub accuracy: Ratio,
    pub precision: Ratio,
    pub recall: Ratio,
    pub f1_score: Ratio,
}

/// How many records of `s` the model `m` puts into the confusion-matrix
/// bucket of predicted label `pl` and true label `tl`.
pub open spec fn bucket_count<M: Model>(m: &M, s: Seq<RecordView>, pl: u8, tl: u8) -> nat
    decreases s.len(),
{
    if s.len() == 0 {
        0
    } else {
        bucket_count(m, s.drop_last(), pl, tl) + if m.predict_spec(s.last()) == pl
            && s.last().target == tl {
            1nat
        } else {
            0nat
        }
    }
}

proof fn lemma_bucket_count_take_step<M: Model>(m: &M, s: Seq<RecordView>, pl: u8, tl: u8, i: int)
    requires
        0 <= i < s.len(),
    ensures
        bucket_count(m, s.take(i + 1), pl, tl) == bucket_count(m, s.take(i), pl, tl) + if m
            .predict_spec(s[i]) == pl && s[i].target == tl {
            1nat
        } else {
            0nat
        },
{
    assert(s.take(i + 1).drop_last() =~= s.take(i));
    assert(s.take(i + 1).last() == s[i]);
}

/// The four confusion-matrix buckets partition the test set: every record
/// falls into exactly one of them.
pub proof fn lemma_confusion_partition<M: Model>(m: &M, s: Seq<RecordView>)
    requires
        m.wf(),
        forall|i: int| 0 <= i < s.len() ==> (#[trigger] s[i]).target <= 1,
    ensures
        bucket_count(m, s, 1, 1) + bucket_count(m, s, 0, 0) + bucket_count(m, s, 1, 0)
            + bucket_count(m, s, 0, 1) == s.len(),
    decreases s.len(),
{
    if s.len() > 0 {
        assert(forall|i: int|
            0 <= i < s.drop_last().len() ==> (#[trigger] s.drop_last()[i]).target <= 1);
        lemma_confusion_partition(m, s.drop_last());
        m.lemma_predict_bounded(s.last());
    }
}

/// The metric values that follow from the four confusion-matrix counts,
/// with the deliberate zero-guards: an undefined metric reports as 0.
pub open spec fn metrics_spec(tp: u64, tn: u64, fp: u64, fn_: u64, total: u64) -> Metrics {
    Metrics {
        accuracy: if total > 0 {
            Ratio { num: (tp + tn) as u64, den: total }
        } else {
            Ratio { num: 0, den: 1 }
        },
        precision: if tp + fp > 0 {
            Ratio { num: tp, den: (tp + fp) as u64 }
        } else {
            Ratio { num: 0, den: 1 }
        },
        recall: if tp + fn_ > 0 {
            Ratio { num: tp, den: (tp + fn_) as u64 }
        } else {
            Ratio { num: 0, den: 1 }
        },
        f1_score: if tp > 0 {
            Ratio { num: (2 * tp) as u64, den: (2 * tp + fp + fn_) as u64 }
        } else {
            Ratio { num: 0, den: 1 }
        },
    }
}

/// Scores `model` against `test_data`: scans the collection once, buckets
/// every prediction against the true label, and derives the four metrics.
///
/// Returns the metrics and the counts `(tp, tn, fp, fn)`. The accuracy
/// denominator is the total of the four buckets; for binary-labeled test
/// data that total equals the test-set length (`lemma_confusion_partition`).
pub fn calculate_metrics<M: Model>(model: &M, test_data: &Vec<ProcessedPatientRecord>) -> (r: (
    Metrics,
    (u32, u32, u32, u32),
))
    requires
        model.wf(),
        test_data@.len() <= u32::MAX,
        forall|i: int| 0 <= i < test_data@.len() ==> model.accepts(#[trigger] test_data@[i]@),
    ensures
        ({
            let s = dataset_view(test_data@);
            let (m, (tp, tn, fp, fn_)) = r;
            &&& tp == bucket_count(model, s, 1, 1)
            &&& tn == bucket_count(model, s, 0, 0)
            &&& fp == bucket_count(model, s, 1, 0)
            &&& fn_ == bucket_count(model, s, 0, 1)
            &&& m == metrics_spec(tp as u64, tn as u64, fp as u64, fn_ as u64, (tp + tn + fp
                + fn_) as u64)
        }),
{
    let ghost s = dataset_view(test_data@);
    let n = test_data.len();
    let mut tp: u32 = 0;
    let mut tn: u32 = 0;
    let mut fp: u32 = 0;
    let mut fn_: u32 = 0;
    let mut i: usize = 0;
    proof {
        assert(s.take(0) =~= Seq::<RecordView>::empty());
    }
    while i < n
        invariant
            i <= n,
            n == s.len(),
            n <= u32::MAX,
            s == dataset_view(test_data@),
            model.wf(),
            forall|j: int| 0 <= j < s.len() ==> model.accepts(#[trigger] test_data@[j]@),
            tp == bucket_count(model, s.take(i as int), 1, 1),
            tn == bucket_count(model, s.take(i as int), 0, 0),
            fp == bucket_count(model, s.take(i as int), 1, 0),
            fn_ == bucket_count(model, s.take(i as int), 0, 1),
            tp + tn + fp + fn_ <= i,
        decreases n - i,
    {
        proof {
            assert(s[i as int] == test_data@[i as int]@);
            lemma_bucket_count_take_step(model, s, 1, 1, i as int);
            lemma_bucket_count_take_step(model, s, 0, 0, i as int);
            lemma_bucket_count_take_step(model, s, 1, 0, i as int);
            lemma_bucket_count_take_step(model, s, 0, 1, i as int);
        }
        let prediction = model.predict(&test_data[i]);
        let target = test_data[i].target;
        if prediction == 1 && target == 1 {
            tp = tp + 1;
        } else if prediction == 0 && target == 0 {
            tn = tn + 1;
        } else if prediction == 1 && target == 0 {
            fp = fp + 1;
        } else if prediction == 0 && target == 1 {
            fn_ = fn_ + 1;
        }
        i = i + 1;
    }
    proof {
        assert(s.take(n as int) =~= s);
    }
    let total: u64 = tp as u64 + tn as u64 + fp as u64 + fn_ as u64;
    let accuracy = if total > 0 {
        Ratio::new(tp as u64 + tn as u64, total)
    } else {
        Ratio::zero()
    };
    let precision = if tp as u64 + fp as u64 > 0 {
        Ratio::new(tp as u64, tp as u64 + fp as u64)
    } else {
        Ratio::zero()
    };
    let recall = if tp as u64 + fn_ as u64 > 0 {
        Ratio::new(tp as u64, tp as u64 + fn_ as u64)
    } else {
        Ratio::zero()
    };
    let f1_score = if tp > 0 {
        Ratio::new(2 * tp as u64, 2 * tp as u64 + fp as u64 + fn_ as u64)
    } else {
        Ratio::zero()
    };
    (Metrics { accuracy, precision, recall, f1_score }, (tp, tn, fp, fn_))
}

/// The reported F1 score is the harmonic mean of precision and recall:
/// with precision `a/b` and recall `c/d`, the harmonic mean is
/// `2ac / (ad + cb)`, and the reported ratio cross-multiplies equally with
/// it whenever it is defined (`tp > 0`).
pub proof fn lemma_f1_harmonic_mean(tp: u64, tn: u64, fp: u64, fn_: u64, total: u64)
    requires
        tp > 0,
        tp <= u32::MAX,
        fp <= u32::MAX,
        fn_ <= u32::MAX,
    ensures
        ({
            let m = metrics_spec(tp, tn, fp, fn_, total);
            let a = m.precision.num;
            let b = m.precision.den;
            let c = m.recall.num;
            let d = m.recall.den;
            m.f1_score.num * (a * d + c * b) == 2 * a * c * m.f1_score.den
        }),
{
    let m = metrics_spec(tp, tn, fp, fn_, total);
    assert(m.f1_score.num * (tp * (tp + fn_) + tp * (tp + fp)) == 2 * tp * tp * m.f1_score.den)
        by (nonlinear_arith)
        requires
            m.f1_score.num == 2 * tp,
            m.f1_score.den == 2 * tp + fp + fn_,
    ;
}

} // verus!
