//! The linear classifier: logistic regression trained by per-record
//! gradient descent in fixed-point arithmetic.
//!
//! Training folds every record of every epoch through `lr_step_spec`, and
//! `train` ensures the learned weights equal that fold exactly. Prediction
//! thresholds the sigmoid of the weighted sum at one half, which (proved in
//! `theorem_logistic_decision_boundary`) is the same as testing the sign of
//! the weighted sum.

use vstd::prelude::*;

use crate::fixed::{
    fx_add, fx_add_spec, fx_mul, fx_mul_spec, fx_sub, fx_sub_spec, lemma_sigmoid_threshold,
    sigmoid, sigmoid_spec, FX_MAX, HALF, ONE,
};
use crate::model::Model;
use crate::record::{dataset_view, record_wf, wf_dataset, ProcessedPatientRecord, RecordView};

verus! {

/// The input the weight at index `i` multiplies: a constant bias of `ONE`
/// at index 0, then the record's features.
pub open spec fn input_at(r: RecordView, i: int) -> i64 {
    if i == 0 {
        ONE
    } else {
        r.features[i - 1]
    }
}

/// The weighted sum of a record (with bias) under weights `w`, folded left
/// to right with saturating fixed-point operations.
pub open spec fn dot_prefix(w: Seq<i64>, r: RecordView, n: int) -> i64
    decreases n,
{
    if n <= 0 {
        0
    } else {
        fx_add_spec(dot_prefix(w, r, n - 1), fx_mul_spec(input_at(r, n - 1), w[n - 1]))
    }
}

/// One stochastic gradient step: the weighted sum goes through the
/// sigmoid, and every weight moves by `learning_rate * error * input`.
pub open spec fn lr_step_spec(w: Seq<i64>, r: RecordView, lr: i64) -> Seq<i64> {
    let z = dot_prefix(w, r, w.len() as int);
    let prediction = sigmoid_spec(z);
    let error = fx_sub_spec((r.target * (ONE as int)) as i64, prediction as i64);
    let factor = fx_mul_spec(lr, error);
    Seq::new(w.len(), |i: int| fx_add_spec(w[i], fx_mul_spec(factor, input_at(r, i))))
}

/// Folding one epoch: every record of `data`, in order.
pub open spec fn lr_epoch_spec(w: Seq<i64>, data: Seq<RecordView>, lr: i64) -> Seq<i64>
    decreases data.len(),
{
    if data.len() == 0 {
        w
    } else {
        lr_step_spec(lr_epoch_spec(w, data.drop_last(), lr), data.last(), lr)
    }
}

/// Folding `epochs` epochs over the same data.
pub open spec fn lr_train_spec(w: Seq<i64>, data: Seq<RecordView>, lr: i64, epochs: nat) -> Seq<
    i64,
>
    decreases epochs,
{
    if epochs == 0 {
        w
    } else {
        lr_epoch_spec(lr_train_spec(w, data, lr, (epochs - 1) as nat), data, lr)
    }
}

/// All-zero initial weights for `n` inputs.
pub open spec fn zero_weights(n: nat) -> Seq<i64> {
    Seq::new(n, |i: int| 0i64)
}

/// A weight vector stays inside the saturation range.
pub open spec fn weights_wf(w: Seq<i64>) -> bool {
    forall|i: int| 0 <= i < w.len() ==> -FX_MAX <= #[trigger] w[i] <= FX_MAX
}

proof fn lemma_lr_step_wf(w: Seq<i64>, r: RecordView, lr: i64)
    ensures
        weights_wf(lr_step_spec(w, r, lr)),
        lr_step_spec(w, r, lr).len() == w.len(),
{
}

proof fn lemma_lr_epoch_wf(w: Seq<i64>, data: Seq<RecordView>, lr: i64)
    ensures
        data.len() > 0 ==> weights_wf(lr_epoch_spec(w, data, lr)),
        lr_epoch_spec(w, data, lr).len() == w.len(),
    decreases data.len(),
{
    if data.len() > 0 {
        lemma_lr_epoch_wf(w, data.drop_last(), lr);
        lemma_lr_step_wf(lr_epoch_spec(w, data.drop_last(), lr), data.last(), lr);
    }
}

proof fn lemma_lr_train_wf(w: Seq<i64>, data: Seq<RecordView>, lr: i64, epochs: nat)
    requires
        weights_wf(w),
    ensures
        weights_wf(lr_train_spec(w, data, lr, epochs)),
        lr_train_spec(w, data, lr, epochs).len() == w.len(),
    decreases epochs,
{
    if epochs > 0 {
        lemma_lr_train_wf(w, data, lr, (epochs - 1) as nat);
        let prev = lr_train_spec(w, data, lr, (epochs - 1) as nat);
        if data.len() > 0 {
            lemma_lr_epoch_wf(prev, data, lr);
        }
    }
}

/// The linear classifier: a weight vector of length `feature count + 1`
/// (bias first), a fixed-point learning rate, and an epoch count.
pub struct LogisticRegression {
    weights: Vec<i64>,
    learning_rate: i64,
    epochs: usize,
}

impl LogisticRegression {
    /// The learned weight vector (empty until trained).
    pub closed spec fn weights_view(&self) -> Seq<i64> {
        self.weights@
    }

    /// The configured learning rate, in fixed point.
    pub closed spec fn rate(&self) -> i64 {
        self.learning_rate
    }

    /// The configured number of epochs.
    pub closed spec fn epoch_count(&self) -> usize {
        self.epochs
    }

    /// A fresh, untrained classifier with the given fixed-point learning
    /// rate and epoch count.
    pub fn new(learning_rate: i64, epochs: usize) -> (r: LogisticRegression)
        requires
            -FX_MAX <= learning_rate <= FX_MAX,
        ensures
            r.wf(),
            !r.trained(),
            r.rate() == learning_rate,
            r.epoch_count() == epochs,
    {
        LogisticRegression { weights: Vec::new(), learning_rate, epochs }
    }

    /// The weighted sum of the stored weights against `r`, bias included.
    fn weighted_sum(&self, r: &ProcessedPatientRecord) -> (z: i64)
        requires
            self.wf(),
            self.weights_view().len() == r@.features.len() + 1,
        ensures
            z == dot_prefix(self.weights_view(), r@, self.weights_view().len() as int),
            -FX_MAX <= z <= FX_MAX,
    {
        let n = self.weights.len();
        let mut z: i64 = 0;
        let mut i: usize = 0;
        while i < n
            invariant
                i <= n,
                n == self.weights_view().len(),
                n == r@.features.len() + 1,
                weights_wf(self.weights_view()),
                self.weights@ == self.weights_view(),
                z == dot_prefix(self.weights_view(), r@, i as int),
                -FX_MAX <= z <= FX_MAX,
            decreases n - i,
        {
            let input: i64 = if i == 0 {
                ONE
            } else {
                r.features[i - 1]
            };
            proof {
                assert(input == input_at(r@, i as int));
            }
            z = fx_add(z, fx_mul(input, self.weights[i]));
            i = i + 1;
        }
        z
    }
}

impl Model for LogisticRegression {
    open spec fn wf(&self) -> bool {
        &&& weights_wf(self.weights_view())
        &&& -FX_MAX <= self.rate() <= FX_MAX
    }

    open spec fn trained(&self) -> bool {
        self.weights_view().len() > 0
    }

    open spec fn accepts(&self, r: RecordView) -> bool {
        &&& record_wf(r)
        &&& self.trained() ==> self.weights_view().len() == r.features.len() + 1
    }

    open spec fn predict_spec(&self, r: RecordView) -> u8 {
        if !self.trained() {
            0
        } else {
            let z = dot_prefix(self.weights_view(), r, self.weights_view().len() as int);
            if sigmoid_spec(z) >= HALF {
                1
            } else {
                0
            }
        }
    }

    open spec fn train_rel(&self, data: Seq<RecordView>, result: Self) -> bool {
        &&& result.rate() == self.rate()
        &&& result.epoch_count() == self.epoch_count()
        &&& if data.len() == 0 {
            result.weights_view() == self.weights_view()
        } else {
            result.weights_view() == lr_train_spec(
                zero_weights((data[0].features.len() + 1) as nat),
                data,
                self.rate(),
                self.epoch_count() as nat,
            )
        }
    }

    proof fn lemma_untrained_predicts_zero(&self, r: RecordView) {
    }

    proof fn lemma_predict_bounded(&self, r: RecordView) {
    }

    /// Gradient-descent training: zero-initialized weights, then for every
    /// epoch a pass over every record in the collection's order, each
    /// record updating the weights immediately.
    fn train(&mut self, data: &Vec<ProcessedPatientRecord>) {
        let ghost ds = dataset_view(data@);
        let n = data.len();
        if n == 0 {
            return ;
        }
        let f = data[0].features.len();
        proof {
            assert(ds[0] == data@[0]@);
            assert(f + 1 <= usize::MAX);
        }
        let width = f + 1;
        let mut w: Vec<i64> = Vec::new();
        let mut i: usize = 0;
        while i < width
            invariant
                i <= width,
                w@.len() == i,
                forall|j: int| 0 <= j < i ==> w@[j] == 0i64,
            decreases width - i,
        {
            w.push(0i64);
            i = i + 1;
        }
        proof {
            assert(w@ =~= zero_weights(width as nat));
        }
        let ghost w0 = w@;
        let lr = self.learning_rate;
        let epochs = self.epochs;
        let mut e: usize = 0;
        while e < epochs
            invariant
                e <= epochs,
                n == ds.len(),
                n > 0,
                ds == dataset_view(data@),
                wf_dataset(ds),
                -FX_MAX <= lr <= FX_MAX,
                w0 == zero_weights(width as nat),
                width == ds[0].features.len() + 1,
                w@ == lr_train_spec(w0, ds, lr, e as nat),
                w@.len() == width,
                weights_wf(w@),
            decreases epochs - e,
        {
            let ghost w_start = w@;
            let mut j: usize = 0;
            proof {
                assert(ds.take(0) =~= Seq::<RecordView>::empty());
            }
            while j < n
                invariant
                    j <= n,
                    n == ds.len(),
                    ds == dataset_view(data@),
                    wf_dataset(ds),
                    -FX_MAX <= lr <= FX_MAX,
                    width == ds[0].features.len() + 1,
                    w@ == lr_epoch_spec(w_start, ds.take(j as int), lr),
                    w@.len() == width,
                    weights_wf(w@),
                decreases n - j,
            {
                let ghost w_before = w@;
                let record = &data[j];
                proof {
                    assert(ds[j as int] == data@[j as int]@);
                    assert(record_wf(ds[j as int]));
                    assert(ds[j as int].features.len() == ds[0].features.len());
                }
                // weighted sum of the current weights against this record
                let mut z: i64 = 0;
                let mut i2: usize = 0;
                while i2 < width
                    invariant
                        i2 <= width,
                        w@ == w_before,
                        w@.len() == width,
                        weights_wf(w@),
                        width == record@.features.len() + 1,
                        z == dot_prefix(w@, record@, i2 as int),
                        -FX_MAX <= z <= FX_MAX,
                    decreases width - i2,
                {
                    let input: i64 = if i2 == 0 {
                        ONE
                    } else {
                        record.features[i2 - 1]
                    };
                    proof {
                        assert(input == input_at(record@, i2 as int));
                    }
                    z = fx_add(z, fx_mul(input, w[i2]));
                    i2 = i2 + 1;
                }
                let prediction = sigmoid(z);
                let target_fx: i64 = if record.target == 1 {
                    ONE
                } else {
                    0
                };
                proof {
                    assert(record.target <= 1);
                    assert(target_fx == (record@.target * (ONE as int)) as i64);
                }
                let error = fx_sub(target_fx, prediction);
                let factor = fx_mul(lr, error);
                let ghost w_next = lr_step_spec(w_before, record@, lr);
                let mut i3: usize = 0;
                while i3 < width
                    invariant
                        i3 <= width,
                        w@.len() == width,
                        width == record@.features.len() + 1,
                        w_next == lr_step_spec(w_before, record@, lr),
                        w_next.len() == width,
                        factor == fx_mul_spec(
                            lr,
                            fx_sub_spec(
                                (record@.target * (ONE as int)) as i64,
                                sigmoid_spec(
                                    dot_prefix(w_before, record@, w_before.len() as int),
                                ) as i64,
                            ),
                        ),
                        forall|q: int| 0 <= q < i3 ==> w@[q] == w_next[q],
                        forall|q: int| i3 <= q < width ==> w@[q] == w_before[q],
                    decreases width - i3,
                {
                    let input: i64 = if i3 == 0 {
                        ONE
                    } else {
                        record.features[i3 - 1]
                    };
                    proof {
                        assert(input == input_at(record@, i3 as int));
                    }
                    let updated = fx_add(w[i3], fx_mul(factor, input));
                    w.set(i3, updated);
                    i3 = i3 + 1;
                }
                proof {
                    assert(w@ =~= w_next);
                    assert(ds.take(j + 1).drop_last() =~= ds.take(j as int));
                    assert(ds.take(j + 1).last() == ds[j as int]);
                    lemma_lr_step_wf(w_before, record@, lr);
                }
                j = j + 1;
            }
            proof {
                assert(ds.take(n as int) =~= ds);
            }
            e = e + 1;
        }
        self.weights = w;
    }

    fn predict(&self, r: &ProcessedPatientRecord) -> (label: u8) {
        if self.weights.len() == 0 {
            return 0;
        }
        let z = self.weighted_sum(r);
        let s = sigmoid(z);
        if s >= HALF {
            1
        } else {
            0
        }
    }

    fn check_accepts(&self, r: &ProcessedPatientRecord) -> (b: bool) {
        if !crate::record::check_record(r) {
            return false;
        }
        if self.weights.len() > 0 && self.weights.len() != r.features.len() + 1 {
            return false;
        }
        true
    }
}

/// The decision boundary of the fixed-point logistic classifier is exact:
/// a trained model predicts 1 exactly when the weighted sum (with bias) of
/// the record is non-negative.
pub proof fn theorem_logistic_decision_boundary(m: &LogisticRegression, r: RecordView)
    requires
        m.wf(),
        m.trained(),
    ensures
        ({
            let z = dot_prefix(m.weights_view(), r, m.weights_view().len() as int);
            m.predict_spec(r) == 1 <==> z >= 0
        }),
{
    let z = dot_prefix(m.weights_view(), r, m.weights_view().len() as int);
    lemma_dot_prefix_bounded(m.weights_view(), r, m.weights_view().len() as int);
    lemma_sigmoid_threshold(z);
}

/// A saturating weighted sum stays inside the saturation range.
proof fn lemma_dot_prefix_bounded(w: Seq<i64>, r: RecordView, n: int)
    ensures
        -FX_MAX <= dot_prefix(w, r, n) <= FX_MAX,
    decreases n,
{
    if n > 0 {
        lemma_dot_prefix_bounded(w, r, n - 1);
    }
}

} // verus!
