//! The generative classifier: Gaussian naive Bayes. Training keeps exact
//! per-class statistics (label counts, per-feature sums, and the integer
//! numerator of the sample variance); prediction scores every trained
//! class by a fixed-point log-posterior and returns the best, earlier
//! (smaller) labels winning ties.

use vstd::prelude::*;

use crate::fixed::{
    fx_add, fx_add_spec, fx_sub, fx_sub_spec, ln_u, ln_u_spec, FX_MAX, LN_2PI, LN_ARG_LIMIT,
};
use crate::model::Model;
use crate::record::{
    count_label, dataset_view, record_wf, wf_dataset, ProcessedPatientRecord, RecordView,
    FEAT_LIMIT, N_LIMIT,
};

verus! {

/// Sum of feature `f` over the records of `s` labeled `l`.
pub open spec fn sum_feat(s: Seq<RecordView>, l: u8, f: int) -> int
    decreases s.len(),
{
    if s.len() == 0 {
        0
    } else {
        sum_feat(s.drop_last(), l, f) + if s.last().target == l {
            s.last().features[f]
        } else {
            0
        }
    }
}

/// Numerator of the sample variance of feature `f` over the records of `s`
/// labeled `l`, scaled by `cnt^2`: the sum of `(cnt * x - sum)^2`.
pub open spec fn var_feat(s: Seq<RecordView>, l: u8, f: int, cnt: int, sum: int) -> int
    decreases s.len(),
{
    if s.len() == 0 {
        0
    } else {
        var_feat(s.drop_last(), l, f, cnt, sum) + if s.last().target == l {
            (cnt * s.last().features[f] - sum) * (cnt * s.last().features[f] - sum)
        } else {
            0
        }
    }
}

/// The mathematical content of one class's statistics.
pub ghost struct StatsView {
    pub label: u8,
    pub count: nat,
    pub sums: Seq<i64>,
    pub var_num: Seq<u128>,
}

/// Per-class training statistics: the class label, how many records carry
/// it, the per-feature value sums, and the per-feature variance numerators
/// (`sum (cnt * x - sum)^2`; the sample variance is that over
/// `cnt^2 * (cnt - 1)`, or the epsilon guard when it is zero).
pub struct ClassStats {
    label: u8,
    count: usize,
    sums: Vec<i64>,
    var_num: Vec<u128>,
}

impl View for ClassStats {
    type V = StatsView;

    closed spec fn view(&self) -> StatsView {
        StatsView {
            label: self.label,
            count: self.count as nat,
            sums: self.sums@,
            var_num: self.var_num@,
        }
    }
}

/// `st` holds exactly the statistics of label `l` over dataset `s`.
pub open spec fn class_stats_ok(st: StatsView, s: Seq<RecordView>, l: u8) -> bool {
    &&& st.label == l
    &&& st.count == count_label(s, l)
    &&& s.len() > 0 ==> st.sums.len() == s[0].features.len()
    &&& st.var_num.len() == st.sums.len()
    &&& forall|f: int| 0 <= f < st.sums.len() ==> st.sums[f] == sum_feat(s, l, f)
    &&& forall|f: int|
        0 <= f < st.sums.len() ==> st.var_num[f] == var_feat(
            s,
            l,
            f,
            st.count as int,
            sum_feat(s, l, f),
        )
}

/// Well-formedness of one class's statistics, as `predict` needs it.
pub open spec fn stats_wf(st: StatsView, total: int) -> bool {
    &&& st.label <= 1
    &&& 1 <= st.count <= total
    &&& st.var_num.len() == st.sums.len()
    &&& st.sums.len() <= N_LIMIT
    &&& forall|f: int|
        0 <= f < st.sums.len() ==> -(st.count as int) * FEAT_LIMIT <= #[trigger] st.sums[f] <= (
        st.count as int) * FEAT_LIMIT
    &&& forall|f: int| 0 <= f < st.var_num.len() ==> #[trigger] st.var_num[f] <= LN_ARG_LIMIT
    &&& forall|f: int| 0 <= f < st.var_num.len() ==> (#[trigger] st.var_num[f] > 0 ==> st.count >= 2)
}

/// The fixed-point logarithm of the stored sample variance of one feature:
/// `ln(var_num / (cnt^2 (cnt - 1)))`, or `ln(1e-9)` when the numerator is
/// zero. The epsilon guards against a zero variance (a constant feature
/// within a class, or a single-record class). It substitutes for the
/// variance only when the exact variance is zero, rather than being added
/// to every variance: with exact integer statistics the variance cannot
/// underflow to zero, and an always-added `1e-9` term has no exact
/// representation inside the bounded integer logarithm pipeline.
pub open spec fn nb_lnvar_spec(cnt: int, v: int) -> i64 {
    if v == 0 {
        fx_sub_spec(0, ln_u_spec(1000000000) as i64)
    } else {
        fx_sub_spec(ln_u_spec(v as u128) as i64, ln_u_spec((cnt * cnt * (cnt - 1)) as u128) as i64)
    }
}

/// The saturated fixed-point value of `(x - mean)^2 / variance` for one
/// feature, written over the stored integers: `d = cnt * x - sum`.
pub open spec fn nb_quad_spec(d: int, cnt: int, v: int) -> i64 {
    if v == 0 {
        let num = d * d * 1000000000;
        if num > (u128::MAX as int) / 65536 {
            FX_MAX
        } else {
            let q = num * 65536 / (2 * cnt * cnt);
            if q > FX_MAX {
                FX_MAX
            } else {
                q as i64
            }
        }
    } else {
        let num = d * d * (cnt - 1);
        let q = num * 65536 / (2 * v);
        if q > FX_MAX {
            FX_MAX
        } else {
            q as i64
        }
    }
}

/// Twice the log-posterior of a class, accumulated over the first `f`
/// features with saturating fixed-point operations:
/// `2 ln(prior) - sum_f [ln(2 pi var_f) + (x_f - mean_f)^2 / var_f]`.
pub open spec fn nb_score_prefix(st: StatsView, total: int, r: RecordView, f: int) -> i64
    decreases f,
{
    if f <= 0 {
        let pr = fx_sub_spec(ln_u_spec(st.count as u128) as i64, ln_u_spec(total as u128) as i64);
        fx_add_spec(pr, pr)
    } else {
        let prev = nb_score_prefix(st, total, r, f - 1);
        let d = st.count * r.features[f - 1] - st.sums[f - 1];
        let v = st.var_num[f - 1] as int;
        let t1 = fx_add_spec(LN_2PI, nb_lnvar_spec(st.count as int, v));
        let q = nb_quad_spec(d, st.count as int, v);
        fx_sub_spec(fx_sub_spec(prev, t1), fx_add_spec(q, q))
    }
}

/// The full score of one class against a record.
pub open spec fn nb_class_score(st: StatsView, total: int, r: RecordView) -> i64 {
    nb_score_prefix(st, total, r, st.sums.len() as int)
}

/// The best (label, score) among the first `n` classes, earlier classes
/// winning ties.
pub open spec fn nb_best(classes: Seq<StatsView>, total: int, r: RecordView, n: int) -> (u8, i64)
    decreases n,
{
    if n <= 1 {
        (classes[0].label, nb_class_score(classes[0], total, r))
    } else {
        let prev = nb_best(classes, total, r, n - 1);
        let s = nb_class_score(classes[n - 1], total, r);
        if s > prev.1 {
            (classes[n - 1].label, s)
        } else {
            prev
        }
    }
}

/// The generative classifier: per-class Gaussian statistics plus priors.
pub struct GaussianNB {
    classes: Vec<ClassStats>,
    total: usize,
}

impl GaussianNB {
    /// The views of the stored per-class statistics, ordered by label.
    pub closed spec fn classes_view(&self) -> Seq<StatsView> {
        self.classes@.map_values(|c: ClassStats| c@)
    }

    /// How many records the model was trained on.
    pub closed spec fn total_view(&self) -> int {
        self.total as int
    }

    /// A fresh, untrained classifier.
    pub fn new() -> (r: GaussianNB)
        ensures
            r.wf(),
            !r.trained(),
    {
        GaussianNB { classes: Vec::new(), total: 0 }
    }

    /// The trained feature count (meaningful only when trained).
    pub open spec fn feature_count(&self) -> int {
        self.classes_view()[0].sums.len() as int
    }
}

impl Model for GaussianNB {
    open spec fn wf(&self) -> bool {
        &&& self.classes_view().len() <= 2
        &&& self.total_view() <= N_LIMIT
        &&& forall|i: int|
            0 <= i < self.classes_view().len() ==> stats_wf(
                #[trigger] self.classes_view()[i],
                self.total_view(),
            )
        &&& forall|i: int, j: int|
            0 <= i < j < self.classes_view().len() ==> self.classes_view()[i].label
                < self.classes_view()[j].label
        &&& forall|i: int|
            0 <= i < self.classes_view().len() ==> (#[trigger] self.classes_view()[i]).sums.len()
                == self.feature_count()
    }

    open spec fn trained(&self) -> bool {
        self.classes_view().len() > 0
    }

    open spec fn accepts(&self, r: RecordView) -> bool {
        &&& record_wf(r)
        &&& self.trained() ==> r.features.len() == self.feature_count()
    }

    open spec fn predict_spec(&self, r: RecordView) -> u8 {
        if !self.trained() {
            0
        } else {
            nb_best(self.classes_view(), self.total_view(), r, self.classes_view().len() as int).0
        }
    }

    open spec fn train_rel(&self, data: Seq<RecordView>, result: Self) -> bool {
        if data.len() == 0 {
            &&& result.classes_view() == self.classes_view()
            &&& result.total_view() == self.total_view()
        } else {
            let c0 = count_label(data, 0);
            let c1 = count_label(data, 1);
            &&& result.total_view() == data.len()
            &&& result.classes_view().len() == (if c0 > 0 {
                1int
            } else {
                0int
            }) + (if c1 > 0 {
                1int
            } else {
                0int
            })
            &&& c0 > 0 ==> class_stats_ok(result.classes_view()[0], data, 0)
            &&& c1 > 0 ==> class_stats_ok(
                result.classes_view()[if c0 > 0 {
                    1int
                } else {
                    0int
                }],
                data,
                1,
            )
        }
    }

    proof fn lemma_untrained_predicts_zero(&self, r: RecordView) {
    }

    proof fn lemma_predict_bounded(&self, r: RecordView) {
        if self.trained() {
            lemma_nb_best_label(
                self.classes_view(),
                self.total_view(),
                r,
                self.classes_view().len() as int,
            );
        }
    }

    /// Partitions the data by label and stores, for each observed class,
    /// the exact label count, per-feature sums and variance numerators.
    fn train(&mut self, data: &Vec<ProcessedPatientRecord>) {
        let ghost ds = dataset_view(data@);
        let n = data.len();
        if n == 0 {
            return ;
        }
        proof {
            assert(forall|i: int| 0 <= i < ds.len() ==> (#[trigger] ds[i]).target <= 1);
        }
        let (c0, c1) = crate::record::count_labels_exec(data);
        let mut classes: Vec<ClassStats> = Vec::new();
        if c0 > 0 {
            let st = build_class_stats(data, 0, c0);
            classes.push(st);
        }
        if c1 > 0 {
            let st = build_class_stats(data, 1, c1);
            classes.push(st);
        }
        proof {
            assert(count_label(ds, 0) > 0 || count_label(ds, 1) > 0) by {
                crate::record::lemma_count_label_partition(ds);
            }
        }
        self.classes = classes;
        self.total = n;
        proof {
            let cv = self.classes_view();
            assert(forall|i: int| 0 <= i < cv.len() ==> cv[i] == self.classes@[i]@);
            lemma_class_stats_wf(ds, 0, n as int);
            lemma_class_stats_wf(ds, 1, n as int);
            crate::record::lemma_count_label_le_len(ds, 0);
            crate::record::lemma_count_label_le_len(ds, 1);
        }
    }

    fn predict(&self, r: &ProcessedPatientRecord) -> (label: u8) {
        let ghost cv = self.classes_view();
        let ghost total = self.total_view();
        let nc = self.classes.len();
        if nc == 0 {
            return 0;
        }
        let mut best_label: u8 = 0;
        let mut best_score: i64 = 0;
        let mut i: usize = 0;
        while i < nc
            invariant
                i <= nc,
                nc == cv.len(),
                cv == self.classes_view(),
                total == self.total_view(),
                self.wf(),
                self.accepts(r@),
                nc > 0,
                forall|q: int| 0 <= q < cv.len() ==> cv[q] == self.classes@[q]@,
                i > 0 ==> (best_label, best_score) == nb_best(cv, total, r@, i as int),
            decreases nc - i,
        {
            proof {
                assert(cv[i as int] == self.classes@[i as int]@);
                assert(stats_wf(cv[i as int], total));
                assert(cv[i as int].sums.len() == self.feature_count());
                assert(cv[0] == self.classes@[0]@);
            }
            let s = class_score(&self.classes[i], self.total, r);
            if i == 0 {
                best_label = self.classes[0].label;
                best_score = s;
                proof {
                    assert((best_label, best_score) == nb_best(cv, total, r@, 1));
                }
            } else if s > best_score {
                best_label = self.classes[i].label;
                best_score = s;
                proof {
                    assert((best_label, best_score) == nb_best(cv, total, r@, i + 1));
                }
            } else {
                proof {
                    assert((best_label, best_score) == nb_best(cv, total, r@, i + 1));
                }
            }
            i = i + 1;
        }
        proof {
            lemma_nb_best_label(cv, total, r@, nc as int);
        }
        best_label
    }

    fn check_accepts(&self, r: &ProcessedPatientRecord) -> (b: bool) {
        if !crate::record::check_record(r) {
            return false;
        }
        if self.classes.len() > 0 {
            proof {
                assert(self.classes@[0]@ == self.classes_view()[0]);
            }
            if r.features.len() != self.classes[0].sums.len() {
                return false;
            }
        }
        true
    }
}

/// The best label among trained classes is one of the stored labels.
proof fn lemma_nb_best_label(classes: Seq<StatsView>, total: int, r: RecordView, n: int)
    requires
        1 <= n <= classes.len(),
        forall|i: int| 0 <= i < classes.len() ==> (#[trigger] classes[i]).label <= 1,
    ensures
        nb_best(classes, total, r, n).0 <= 1,
    decreases n,
{
    if n > 1 {
        lemma_nb_best_label(classes, total, r, n - 1);
    }
}

/// Counting splits over concatenation.
proof fn lemma_count_label_append(a: Seq<RecordView>, b: Seq<RecordView>, l: u8)
    ensures
        count_label(a + b, l) == count_label(a, l) + count_label(b, l),
    decreases b.len(),
{
    if b.len() == 0 {
        assert(a + b =~= a);
    } else {
        assert((a + b).drop_last() =~= a + b.drop_last());
        assert((a + b).last() == b.last());
        lemma_count_label_append(a, b.drop_last(), l);
    }
}

/// A prefix never holds more matching labels than the whole sequence.
proof fn lemma_count_label_prefix_le(s: Seq<RecordView>, l: u8, j: int)
    requires
        0 <= j <= s.len(),
    ensures
        count_label(s.take(j), l) <= count_label(s, l),
{
    assert(s =~= s.take(j) + s.skip(j));
    lemma_count_label_append(s.take(j), s.skip(j), l);
}

/// Bound on a per-class feature sum: each matching record contributes at
/// most `FEAT_LIMIT` in magnitude.
proof fn lemma_sum_feat_bound(s: Seq<RecordView>, l: u8, f: int)
    requires
        0 <= f,
        forall|i: int| 0 <= i < s.len() ==> f < (#[trigger] s[i]).features.len(),
        forall|i: int|
            0 <= i < s.len() ==> -FEAT_LIMIT <= #[trigger] s[i].features[f] <= FEAT_LIMIT,
    ensures
        -(count_label(s, l) as int) * FEAT_LIMIT <= sum_feat(s, l, f) <= (count_label(s, l) as int)
            * FEAT_LIMIT,
    decreases s.len(),
{
    if s.len() > 0 {
        assert forall|i: int| 0 <= i < s.drop_last().len() implies f
            < (#[trigger] s.drop_last()[i]).features.len() by {
            assert(s.drop_last()[i] == s[i]);
        }
        assert forall|i: int| 0 <= i < s.drop_last().len() implies -FEAT_LIMIT
            <= #[trigger] s.drop_last()[i].features[f] <= FEAT_LIMIT by {
            assert(s.drop_last()[i] == s[i]);
        }
        lemma_sum_feat_bound(s.drop_last(), l, f);
        let c = count_label(s.drop_last(), l) as int;
        assert(c * FEAT_LIMIT + FEAT_LIMIT == (c + 1) * FEAT_LIMIT) by (nonlinear_arith);
        assert(-(c * FEAT_LIMIT) - FEAT_LIMIT == -((c + 1) * FEAT_LIMIT)) by (nonlinear_arith);
    }
}

/// Bound on a per-class variance numerator: each matching record
/// contributes at most `(2 cnt FEAT_LIMIT)^2`.
proof fn lemma_var_feat_bound(s: Seq<RecordView>, l: u8, f: int, cnt: int, sum: int)
    requires
        0 <= cnt,
        -cnt * FEAT_LIMIT <= sum <= cnt * FEAT_LIMIT,
        0 <= f,
        forall|i: int| 0 <= i < s.len() ==> f < (#[trigger] s[i]).features.len(),
        forall|i: int|
            0 <= i < s.len() ==> -FEAT_LIMIT <= #[trigger] s[i].features[f] <= FEAT_LIMIT,
    ensures
        0 <= var_feat(s, l, f, cnt, sum) <= (count_label(s, l) as int) * (4 * cnt * cnt
            * FEAT_LIMIT * FEAT_LIMIT),
    decreases s.len(),
{
    if s.len() > 0 {
        assert forall|i: int| 0 <= i < s.drop_last().len() implies f
            < (#[trigger] s.drop_last()[i]).features.len() by {
            assert(s.drop_last()[i] == s[i]);
        }
        assert forall|i: int| 0 <= i < s.drop_last().len() implies -FEAT_LIMIT
            <= #[trigger] s.drop_last()[i].features[f] <= FEAT_LIMIT by {
            assert(s.drop_last()[i] == s[i]);
        }
        lemma_var_feat_bound(s.drop_last(), l, f, cnt, sum);
        let c = count_label(s.drop_last(), l) as int;
        let k = 4 * cnt * cnt * FEAT_LIMIT * FEAT_LIMIT;
        if s.last().target == l {
            let x = s.last().features[f];
            let d = cnt * x - sum;
            assert(-2 * cnt * FEAT_LIMIT <= d <= 2 * cnt * FEAT_LIMIT) by (nonlinear_arith)
                requires
                    0 <= cnt,
                    -FEAT_LIMIT <= x <= FEAT_LIMIT,
                    -cnt * FEAT_LIMIT <= sum <= cnt * FEAT_LIMIT,
                    d == cnt * x - sum,
            ;
            assert(0 <= d * d <= k) by (nonlinear_arith)
                requires
                    -2 * cnt * FEAT_LIMIT <= d <= 2 * cnt * FEAT_LIMIT,
                    k == 4 * cnt * cnt * FEAT_LIMIT * FEAT_LIMIT,
                    0 <= cnt,
            ;
        }
        assert(c * k + k == (c + 1) * k) by (nonlinear_arith);
        assert(0 <= c * k) by (nonlinear_arith)
            requires
                0 <= c,
                0 <= k,
        ;
    }
}

/// With no matching record, both statistics vanish.
proof fn lemma_stats_empty_class(s: Seq<RecordView>, l: u8, f: int, cnt: int, sum: int)
    requires
        count_label(s, l) == 0,
    ensures
        sum_feat(s, l, f) == 0,
        var_feat(s, l, f, cnt, sum) == 0,
    decreases s.len(),
{
    if s.len() > 0 {
        lemma_stats_empty_class(s.drop_last(), l, f, cnt, sum);
    }
}

/// A single-record class has zero variance numerator: its only feature
/// value equals its mean.
proof fn lemma_var_feat_single(s: Seq<RecordView>, l: u8, f: int)
    requires
        count_label(s, l) == 1,
    ensures
        var_feat(s, l, f, 1, sum_feat(s, l, f)) == 0,
    decreases s.len(),
{
    if s.len() > 0 {
        let sum = sum_feat(s, l, f);
        if s.last().target == l {
            assert(count_label(s.drop_last(), l) == 0);
            lemma_stats_empty_class(s.drop_last(), l, f, 1, sum);
            assert(sum == s.last().features[f]);
            let x = s.last().features[f];
            assert(1 * x - sum == 0) by (nonlinear_arith)
                requires
                    sum == x,
            ;
            assert((1 * x - sum) * (1 * x - sum) == 0);
        } else {
            lemma_var_feat_single(s.drop_last(), l, f);
            assert(sum == sum_feat(s.drop_last(), l, f));
        }
    }
}

/// The statistics of a well-formed dataset are well formed.
proof fn lemma_class_stats_wf(s: Seq<RecordView>, l: u8, total: int)
    requires
        wf_dataset(s),
        s.len() > 0,
        s.len() <= total <= N_LIMIT,
    ensures
        forall|f: int|
            0 <= f < s[0].features.len() ==> -(count_label(s, l) as int) * FEAT_LIMIT
                <= #[trigger] sum_feat(s, l, f) <= (count_label(s, l) as int) * FEAT_LIMIT,
        forall|f: int|
            0 <= f < s[0].features.len() ==> 0 <= #[trigger] var_feat(
                s,
                l,
                f,
                count_label(s, l) as int,
                sum_feat(s, l, f),
            ) <= LN_ARG_LIMIT,
        count_label(s, l) == 1 ==> forall|f: int|
            0 <= f < s[0].features.len() ==> #[trigger] var_feat(
                s,
                l,
                f,
                count_label(s, l) as int,
                sum_feat(s, l, f),
            ) == 0,
{
    let c = count_label(s, l) as int;
    crate::record::lemma_count_label_le_len(s, l);
    assert forall|f: int| 0 <= f < s[0].features.len() implies -(c * FEAT_LIMIT) <= #[trigger] sum_feat(
        s,
        l,
        f,
    ) <= c * FEAT_LIMIT by {
        assert forall|i: int| 0 <= i < s.len() implies f
            < (#[trigger] s[i]).features.len() && -FEAT_LIMIT <= s[i].features[f]
            <= FEAT_LIMIT by {
            assert(record_wf(s[i]));
        }
        lemma_sum_feat_bound(s, l, f);
    }
    assert forall|f: int| 0 <= f < s[0].features.len() implies 0 <= #[trigger] var_feat(
        s,
        l,
        f,
        c,
        sum_feat(s, l, f),
    ) <= LN_ARG_LIMIT by {
        assert forall|i: int| 0 <= i < s.len() implies f
            < (#[trigger] s[i]).features.len() && -FEAT_LIMIT <= s[i].features[f]
            <= FEAT_LIMIT by {
            assert(record_wf(s[i]));
        }
        lemma_sum_feat_bound(s, l, f);
        lemma_var_feat_bound(s, l, f, c, sum_feat(s, l, f));
        assert(c * (4 * c * c * FEAT_LIMIT * FEAT_LIMIT) <= LN_ARG_LIMIT) by (nonlinear_arith)
            requires
                0 <= c <= N_LIMIT,
        ;
    }
    if c == 1 {
        assert forall|f: int| 0 <= f < s[0].features.len() implies #[trigger] var_feat(
            s,
            l,
            f,
            c,
            sum_feat(s, l, f),
        ) == 0 by {
            lemma_var_feat_single(s, l, f);
        }
    }
}

proof fn lemma_sum_feat_take_step(s: Seq<RecordView>, l: u8, f: int, j: int)
    requires
        0 <= j < s.len(),
    ensures
        sum_feat(s.take(j + 1), l, f) == sum_feat(s.take(j), l, f) + if s[j].target == l {
            s[j].features[f]
        } else {
            0
        },
{
    assert(s.take(j + 1).drop_last() =~= s.take(j));
    assert(s.take(j + 1).last() == s[j]);
}

proof fn lemma_var_feat_take_step(s: Seq<RecordView>, l: u8, f: int, cnt: int, sum: int, j: int)
    requires
        0 <= j < s.len(),
    ensures
        var_feat(s.take(j + 1), l, f, cnt, sum) == var_feat(s.take(j), l, f, cnt, sum) + if s[j].target
            == l {
            (cnt * s[j].features[f] - sum) * (cnt * s[j].features[f] - sum)
        } else {
            0
        },
{
    assert(s.take(j + 1).drop_last() =~= s.take(j));
    assert(s.take(j + 1).last() == s[j]);
}

/// Builds the statistics of one class: the label count, then one pass for
/// the feature sums and one pass for the variance numerators.
fn build_class_stats(data: &Vec<ProcessedPatientRecord>, l: u8, cnt: usize) -> (st: ClassStats)
    requires
        wf_dataset(dataset_view(data@)),
        data@.len() > 0,
        l <= 1,
        cnt == count_label(dataset_view(data@), l),
        cnt > 0,
    ensures
        class_stats_ok(st@, dataset_view(data@), l),
{
    let ghost ds = dataset_view(data@);
    let n = data.len();
    let f_count = data[0].features.len();
    proof {
        assert(ds[0] == data@[0]@);
        crate::record::lemma_count_label_le_len(ds, l);
        lemma_class_stats_wf(ds, l, n as int);
    }
    // Pass 1: per-feature sums.
    let mut sums: Vec<i64> = Vec::new();
    let mut i: usize = 0;
    while i < f_count
        invariant
            i <= f_count,
            sums@.len() == i,
            forall|q: int| 0 <= q < i ==> sums@[q] == 0i64,
        decreases f_count - i,
    {
        sums.push(0i64);
        i = i + 1;
    }
    let mut j: usize = 0;
    proof {
        assert(ds.take(0) =~= Seq::<RecordView>::empty());
        assert(forall|q: int|
            0 <= q < f_count ==> #[trigger] sum_feat(ds.take(0), l, q) == 0);
    }
    while j < n
        invariant
            j <= n,
            n == ds.len(),
            ds == dataset_view(data@),
            wf_dataset(ds),
            cnt == count_label(ds, l),
            f_count == ds[0].features.len(),
            f_count <= N_LIMIT,
            sums@.len() == f_count,
            forall|q: int| 0 <= q < f_count ==> sums@[q] == sum_feat(ds.take(j as int), l, q),
        decreases n - j,
    {
        proof {
            assert(ds[j as int] == data@[j as int]@);
            assert(record_wf(ds[j as int]));
            assert(ds[j as int].features.len() == ds[0].features.len());
        }
        if data[j].target == l {
            let mut q: usize = 0;
            while q < f_count
                invariant
                    q <= f_count,
                    j < n,
                    n == ds.len(),
                    ds == dataset_view(data@),
                    wf_dataset(ds),
                    cnt == count_label(ds, l),
                    data@[j as int]@ == ds[j as int],
                    ds[j as int].target == l,
                    f_count == ds[0].features.len(),
                    sums@.len() == f_count,
                    forall|p: int| q <= p < f_count ==> sums@[p] == sum_feat(ds.take(j as int), l, p),
                    forall|p: int| 0 <= p < q ==> sums@[p] == sum_feat(ds.take(j + 1), l, p),
                decreases f_count - q,
            {
                proof {
                    lemma_sum_feat_take_step(ds, l, q as int, j as int);
                    lemma_count_label_prefix_le(ds, l, j as int);
                    lemma_sum_feat_bound_prefix(ds, l, q as int, j as int);
                    crate::record::lemma_count_label_le_len(ds, l);
                    let cj = count_label(ds.take(j as int), l) as int;
                    assert(cj * FEAT_LIMIT <= (N_LIMIT as int) * FEAT_LIMIT && -(cj * FEAT_LIMIT)
                        >= -((N_LIMIT as int) * FEAT_LIMIT)) by (nonlinear_arith)
                        requires
                            0 <= cj <= N_LIMIT,
                    ;
                }
                let updated = sums[q] + data[j].features[q];
                sums.set(q, updated);
                q = q + 1;
            }
        } else {
            proof {
                assert(forall|p: int|
                    0 <= p < f_count ==> sum_feat(ds.take(j + 1), l, p) == sum_feat(
                        ds.take(j as int),
                        l,
                        p,
                    )) by {
                    assert forall|p: int| 0 <= p < f_count implies sum_feat(ds.take(j + 1), l, p)
                        == sum_feat(ds.take(j as int), l, p) by {
                        lemma_sum_feat_take_step(ds, l, p, j as int);
                    }
                }
            }
        }
        j = j + 1;
    }
    proof {
        assert(ds.take(n as int) =~= ds);
    }
    // Pass 2: per-feature variance numerators.
    let mut var_num: Vec<u128> = Vec::new();
    let mut i2: usize = 0;
    while i2 < f_count
        invariant
            i2 <= f_count,
            var_num@.len() == i2,
            forall|q: int| 0 <= q < i2 ==> var_num@[q] == 0u128,
        decreases f_count - i2,
    {
        var_num.push(0u128);
        i2 = i2 + 1;
    }
    let mut j2: usize = 0;
    proof {
        assert(ds.take(0) =~= Seq::<RecordView>::empty());
    }
    while j2 < n
        invariant
            j2 <= n,
            n == ds.len(),
            ds == dataset_view(data@),
            wf_dataset(ds),
            cnt == count_label(ds, l),
            cnt <= n,
            f_count == ds[0].features.len(),
            f_count <= N_LIMIT,
            sums@.len() == f_count,
            forall|q: int| 0 <= q < f_count ==> sums@[q] == sum_feat(ds, l, q),
            var_num@.len() == f_count,
            forall|q: int|
                0 <= q < f_count ==> var_num@[q] == var_feat(
                    ds.take(j2 as int),
                    l,
                    q,
                    cnt as int,
                    sum_feat(ds, l, q),
                ),
        decreases n - j2,
    {
        proof {
            assert(ds[j2 as int] == data@[j2 as int]@);
            assert(record_wf(ds[j2 as int]));
            assert(ds[j2 as int].features.len() == ds[0].features.len());
        }
        if data[j2].target == l {
            let mut q: usize = 0;
            while q < f_count
                invariant
                    q <= f_count,
                    j2 < n,
                    n == ds.len(),
                    ds == dataset_view(data@),
                    wf_dataset(ds),
                    cnt == count_label(ds, l),
                    cnt <= n,
                    data@[j2 as int]@ == ds[j2 as int],
                    ds[j2 as int].target == l,
                    f_count == ds[0].features.len(),
                    sums@.len() == f_count,
                    forall|p: int| 0 <= p < f_count ==> sums@[p] == sum_feat(ds, l, p),
                    var_num@.len() == f_count,
                    forall|p: int|
                        q <= p < f_count ==> var_num@[p] == var_feat(
                            ds.take(j2 as int),
                            l,
                            p,
                            cnt as int,
                            sum_feat(ds, l, p),
                        ),
                    forall|p: int|
                        0 <= p < q ==> var_num@[p] == var_feat(
                            ds.take(j2 + 1),
                            l,
                            p,
                            cnt as int,
                            sum_feat(ds, l, p),
                        ),
                decreases f_count - q,
            {
                let ghost sum_q = sum_feat(ds, l, q as int);
                proof {
                    lemma_var_feat_take_step(ds, l, q as int, cnt as int, sum_q, j2 as int);
                    lemma_sum_feat_bound(ds, l, q as int);
                    lemma_var_feat_bound_prefix(ds, l, q as int, cnt as int, sum_q, j2 as int);
                    crate::record::lemma_count_label_le_len(ds, l);
                    assert((cnt as int) * (ds[j2 as int].features[q as int]) <= N_LIMIT
                        * FEAT_LIMIT && (cnt as int) * (ds[j2 as int].features[q as int])
                        >= -(N_LIMIT * FEAT_LIMIT)) by (nonlinear_arith)
                        requires
                            0 <= cnt <= N_LIMIT,
                            -FEAT_LIMIT <= ds[j2 as int].features[q as int] <= FEAT_LIMIT,
                    ;
                }
                let x: i64 = data[j2].features[q];
                let nx: i64 = (cnt as i64) * x;
                let d: i64 = nx - sums[q];
                let wide: i128 = d as i128;
                proof {
                    assert(0 <= wide * wide <= 4 * (N_LIMIT as int) * (N_LIMIT as int)
                        * FEAT_LIMIT * FEAT_LIMIT) by (nonlinear_arith)
                        requires
                            -2 * (N_LIMIT as int) * FEAT_LIMIT <= wide <= 2 * (N_LIMIT as int)
                                * FEAT_LIMIT,
                    ;
                }
                let d2: u128 = (wide * wide) as u128;
                let updated = var_num[q] + d2;
                var_num.set(q, updated);
                q = q + 1;
            }
        } else {
            proof {
                assert forall|p: int| 0 <= p < f_count implies var_feat(
                    ds.take(j2 + 1),
                    l,
                    p,
                    cnt as int,
                    sum_feat(ds, l, p),
                ) == var_feat(ds.take(j2 as int), l, p, cnt as int, sum_feat(ds, l, p)) by {
                    lemma_var_feat_take_step(ds, l, p, cnt as int, sum_feat(ds, l, p), j2 as int);
                }
            }
        }
        j2 = j2 + 1;
    }
    proof {
        assert(ds.take(n as int) =~= ds);
    }
    ClassStats { label: l, count: cnt, sums, var_num }
}

/// Bound on a prefix feature sum, for the running accumulator.
proof fn lemma_sum_feat_bound_prefix(s: Seq<RecordView>, l: u8, f: int, j: int)
    requires
        0 <= j <= s.len(),
        wf_dataset(s),
        s.len() > 0,
        0 <= f < s[0].features.len(),
    ensures
        -(count_label(s.take(j), l) as int) * FEAT_LIMIT <= sum_feat(s.take(j), l, f) <= (
        count_label(s.take(j), l) as int) * FEAT_LIMIT,
        count_label(s.take(j), l) <= count_label(s, l),
{
    assert forall|i: int| 0 <= i < s.take(j).len() implies f
        < (#[trigger] s.take(j)[i]).features.len() by {
        assert(s.take(j)[i] == s[i]);
        assert(record_wf(s[i]));
    }
    assert forall|i: int| 0 <= i < s.take(j).len() implies -FEAT_LIMIT
        <= #[trigger] s.take(j)[i].features[f] <= FEAT_LIMIT by {
        assert(s.take(j)[i] == s[i]);
        assert(record_wf(s[i]));
    }
    lemma_sum_feat_bound(s.take(j), l, f);
    lemma_count_label_prefix_le(s, l, j);
}

/// Bound on a prefix variance numerator, for the running accumulator.
proof fn lemma_var_feat_bound_prefix(s: Seq<RecordView>, l: u8, f: int, cnt: int, sum: int, j: int)
    requires
        0 <= j <= s.len(),
        wf_dataset(s),
        s.len() > 0,
        0 <= f < s[0].features.len(),
        0 <= cnt <= N_LIMIT,
        -cnt * FEAT_LIMIT <= sum <= cnt * FEAT_LIMIT,
    ensures
        0 <= var_feat(s.take(j), l, f, cnt, sum) <= LN_ARG_LIMIT,
        count_label(s.take(j), l) <= count_label(s, l),
{
    assert forall|i: int| 0 <= i < s.take(j).len() implies f
        < (#[trigger] s.take(j)[i]).features.len() by {
        assert(s.take(j)[i] == s[i]);
        assert(record_wf(s[i]));
    }
    assert forall|i: int| 0 <= i < s.take(j).len() implies -FEAT_LIMIT
        <= #[trigger] s.take(j)[i].features[f] <= FEAT_LIMIT by {
        assert(s.take(j)[i] == s[i]);
        assert(record_wf(s[i]));
    }
    lemma_var_feat_bound(s.take(j), l, f, cnt, sum);
    lemma_count_label_prefix_le(s, l, j);
    crate::record::lemma_count_label_le_len(s.take(j), l);
    assert((count_label(s.take(j), l) as int) * (4 * cnt * cnt * FEAT_LIMIT * FEAT_LIMIT)
        <= LN_ARG_LIMIT) by (nonlinear_arith)
        requires
            0 <= count_label(s.take(j), l) <= N_LIMIT,
            0 <= cnt <= N_LIMIT,
    ;
}

/// Scores one class against a record, exactly as `nb_class_score` states.
fn class_score(st: &ClassStats, total: usize, r: &ProcessedPatientRecord) -> (s: i64)
    requires
        stats_wf(st@, total as int),
        total <= N_LIMIT,
        record_wf(r@),
        r@.features.len() == st@.sums.len(),
    ensures
        s == nb_class_score(st@, total as int, r@),
{
    let f_count = st.sums.len();
    let ln_c = ln_u(st.count as u128);
    let ln_t = ln_u(total as u128);
    let pr = fx_sub(ln_c as i64, ln_t as i64);
    let mut score = fx_add(pr, pr);
    let mut f: usize = 0;
    while f < f_count
        invariant
            f <= f_count,
            f_count == st@.sums.len(),
            stats_wf(st@, total as int),
            total <= N_LIMIT,
            record_wf(r@),
            r@.features.len() == f_count,
            score == nb_score_prefix(st@, total as int, r@, f as int),
        decreases f_count - f,
    {
        let x: i64 = r.features[f];
        let cnt = st.count;
        proof {
            assert((cnt as int) * (r@.features[f as int]) <= (N_LIMIT as int) * FEAT_LIMIT && (
            cnt as int) * (r@.features[f as int]) >= -((N_LIMIT as int) * FEAT_LIMIT))
                by (nonlinear_arith)
                requires
                    0 <= cnt <= N_LIMIT,
                    -FEAT_LIMIT <= r@.features[f as int] <= FEAT_LIMIT,
            ;
        }
        let nx: i64 = (cnt as i64) * x;
        let d: i64 = nx - st.sums[f];
        let wide: i128 = d as i128;
        proof {
            assert(0 <= wide * wide <= 4 * (N_LIMIT as int) * (N_LIMIT as int) * FEAT_LIMIT
                * FEAT_LIMIT) by (nonlinear_arith)
                requires
                    -2 * (N_LIMIT as int) * FEAT_LIMIT <= wide <= 2 * (N_LIMIT as int)
                        * FEAT_LIMIT,
            ;
        }
        let d2: u128 = (wide * wide) as u128;
        let v: u128 = st.var_num[f];
        let lnvar: i64;
        let quad: i64;
        if v == 0 {
            let ln_eps = ln_u(1000000000);
            lnvar = fx_sub(0, ln_eps as i64);
            let num: u128 = d2 * 1000000000;
            if num > u128::MAX / 65536 {
                quad = FX_MAX;
            } else {
                proof {
                    vstd::arithmetic::div_mod::lemma_fundamental_div_mod(u128::MAX as int, 65536);
                    assert(num * 65536 <= u128::MAX) by (nonlinear_arith)
                        requires
                            num <= (u128::MAX as int) / 65536,
                    ;
                    assert(1 <= 2 * (cnt as int) * (cnt as int) <= 2 * (N_LIMIT as int) * (
                    N_LIMIT as int)) by (nonlinear_arith)
                        requires
                            1 <= cnt <= N_LIMIT,
                    ;
                }
                let den: u128 = 2 * (cnt as u128) * (cnt as u128);
                let q = num * 65536 / den;
                quad = if q > FX_MAX as u128 {
                    FX_MAX
                } else {
                    q as i64
                };
            }
        } else {
            proof {
                assert(cnt >= 2);
                assert((cnt as int) * (cnt as int) * ((cnt as int) - 1) <= LN_ARG_LIMIT && (
                cnt as int) * (cnt as int) * ((cnt as int) - 1) >= 1 && 1 <= (cnt as int) * (
                cnt as int) <= (N_LIMIT as int) * (N_LIMIT as int)) by (nonlinear_arith)
                    requires
                        2 <= cnt <= N_LIMIT,
                ;
            }
            let ln_v = ln_u(v);
            let den_c: u128 = (cnt as u128) * (cnt as u128) * ((cnt - 1) as u128);
            let ln_den = ln_u(den_c);
            lnvar = fx_sub(ln_v as i64, ln_den as i64);
            proof {
                assert(d2 * ((cnt as int) - 1) <= 4 * (N_LIMIT as int) * (N_LIMIT as int)
                    * FEAT_LIMIT * FEAT_LIMIT * (N_LIMIT as int)) by (nonlinear_arith)
                    requires
                        0 <= d2 <= 4 * (N_LIMIT as int) * (N_LIMIT as int) * FEAT_LIMIT
                            * FEAT_LIMIT,
                        1 <= cnt <= N_LIMIT,
                ;
                assert(4 * (N_LIMIT as int) * (N_LIMIT as int) * FEAT_LIMIT * FEAT_LIMIT * (
                N_LIMIT as int) * 65536 <= u128::MAX) by (nonlinear_arith);
            }
            let num: u128 = d2 * ((cnt - 1) as u128);
            let q = num * 65536 / (2 * v);
            quad = if q > FX_MAX as u128 {
                FX_MAX
            } else {
                q as i64
            };
        }
        proof {
            assert(lnvar == nb_lnvar_spec(cnt as int, v as int));
            assert(quad == nb_quad_spec(d as int, cnt as int, v as int));
        }
        let t1 = fx_add(LN_2PI, lnvar);
        score = fx_sub(fx_sub(score, t1), fx_add(quad, quad));
        f = f + 1;
    }
    score
}

/// The priors of a trained model sum exactly to one: the class counts
/// partition the training set, so `count_0 / total + count_1 / total == 1`
/// as exact rationals.
pub proof fn theorem_priors_sum_to_one(m: &GaussianNB, data: Seq<RecordView>, result: &GaussianNB)
    requires
        wf_dataset(data),
        data.len() > 0,
        m.train_rel(data, *result),
    ensures
        ({
            let cv = result.classes_view();
            sum_counts(cv) == result.total_view()
        }),
{
    let c0 = count_label(data, 0);
    let c1 = count_label(data, 1);
    crate::record::lemma_count_label_partition(data);
    let cv = result.classes_view();
    if c0 > 0 && c1 > 0 {
        assert(cv.drop_last().drop_last() =~= Seq::<StatsView>::empty());
        assert(cv.drop_last().last() == cv[0]);
        assert(cv.last() == cv[1]);
        assert(sum_counts(Seq::<StatsView>::empty()) == 0);
        assert(sum_counts(cv.drop_last()) == cv[0].count);
        assert(sum_counts(cv) == cv[0].count + cv[1].count);
    } else {
        assert(cv.drop_last() =~= Seq::<StatsView>::empty());
        assert(cv.last() == cv[0]);
        assert(sum_counts(Seq::<StatsView>::empty()) == 0);
        assert(sum_counts(cv) == cv[0].count);
    }
}

/// Total of the stored class counts.
pub open spec fn sum_counts(classes: Seq<StatsView>) -> int
    decreases classes.len(),
{
    if classes.len() == 0 {
        0
    } else {
        sum_counts(classes.drop_last()) + classes.last().count
    }
}

/// A model trained on data of a single class predicts that class for every
/// record: classes never seen in training are never considered.
pub proof fn theorem_single_class_predicts_it(
    m: &GaussianNB,
    data: Seq<RecordView>,
    result: &GaussianNB,
    l: u8,
    r: RecordView,
)
    requires
        wf_dataset(data),
        data.len() > 0,
        l <= 1,
        count_label(data, l) == data.len(),
        m.train_rel(data, *result),
    ensures
        result.predict_spec(r) == l,
{
    crate::record::lemma_count_label_partition(data);
    let cv = result.classes_view();
    assert(cv.len() == 1);
    assert(cv[0].label == l);
}

} // verus!
