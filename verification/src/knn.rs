//! The instance classifier: k-nearest-neighbors. A lazy learner that
//! stores the training collection verbatim and, at prediction time, sorts
//! all stored records by squared Euclidean distance to the query and takes
//! the majority label of the `k` closest.

use vstd::prelude::*;

use crate::model::Model;
use crate::record::{
    count_label, dataset_view, record_wf, wf_dataset, ProcessedPatientRecord, RecordView,
    FEAT_LIMIT, N_LIMIT,
};

verus! {

/// Sum of squared componentwise differences of two equal-length sequences.
pub open spec fn sq_sum(a: Seq<i64>, b: Seq<i64>) -> int
    decreases a.len(),
{
    if a.len() == 0 {
        0
    } else {
        sq_sum(a.drop_last(), b.drop_last()) + (a.last() - b.last()) * (a.last() - b.last())
    }
}

/// Squared Euclidean distance between two feature vectors; vectors of
/// different lengths are maximally distant, so they sort last and are
/// effectively ignored when `k` is small.
pub open spec fn dist_spec(a: Seq<i64>, b: Seq<i64>) -> u128 {
    if a.len() != b.len() {
        u128::MAX
    } else if sq_sum(a, b) >= u128::MAX {
        u128::MAX
    } else {
        sq_sum(a, b) as u128
    }
}

proof fn lemma_sq_sum_bound(a: Seq<i64>, b: Seq<i64>)
    requires
        a.len() == b.len(),
        forall|i: int| 0 <= i < a.len() ==> -FEAT_LIMIT <= #[trigger] a[i] <= FEAT_LIMIT,
        forall|i: int| 0 <= i < b.len() ==> -FEAT_LIMIT <= #[trigger] b[i] <= FEAT_LIMIT,
    ensures
        0 <= sq_sum(a, b) <= a.len() * (4 * FEAT_LIMIT * FEAT_LIMIT),
    decreases a.len(),
{
    if a.len() == 0 {
    } else {
        lemma_sq_sum_bound(a.drop_last(), b.drop_last());
        let d = a.last() - b.last();
        assert(0 <= d * d <= 4 * FEAT_LIMIT * FEAT_LIMIT) by (nonlinear_arith)
            requires
                -2 * FEAT_LIMIT <= d <= 2 * FEAT_LIMIT,
        ;
        assert((a.len() - 1) * (4 * FEAT_LIMIT * FEAT_LIMIT) + 4 * FEAT_LIMIT * FEAT_LIMIT
            == a.len() * (4 * FEAT_LIMIT * FEAT_LIMIT)) by (nonlinear_arith);
    }
}

proof fn lemma_sq_sum_take_step(a: Seq<i64>, b: Seq<i64>, i: int)
    requires
        a.len() == b.len(),
        0 <= i < a.len(),
    ensures
        sq_sum(a.take(i + 1), b.take(i + 1)) == sq_sum(a.take(i), b.take(i)) + (a[i] - b[i]) * (
        a[i] - b[i]),
{
    assert(a.take(i + 1).drop_last() =~= a.take(i));
    assert(b.take(i + 1).drop_last() =~= b.take(i));
}

/// Computes the squared Euclidean distance of two bounded feature vectors.
pub fn sq_distance(a: &Vec<i64>, b: &Vec<i64>) -> (d: u128)
    requires
        a@.len() <= N_LIMIT,
        forall|i: int| 0 <= i < a@.len() ==> -FEAT_LIMIT <= #[trigger] a@[i] <= FEAT_LIMIT,
        forall|i: int| 0 <= i < b@.len() ==> -FEAT_LIMIT <= #[trigger] b@[i] <= FEAT_LIMIT,
    ensures
        d == dist_spec(a@, b@),
{
    if a.len() != b.len() {
        return u128::MAX;
    }
    let n = a.len();
    let mut acc: u128 = 0;
    let mut i: usize = 0;
    proof {
        assert(a@.take(0) =~= Seq::<i64>::empty());
        assert(b@.take(0) =~= Seq::<i64>::empty());
    }
    while i < n
        invariant
            i <= n,
            n == a@.len(),
            n == b@.len(),
            n <= N_LIMIT,
            forall|j: int| 0 <= j < a@.len() ==> -FEAT_LIMIT <= #[trigger] a@[j] <= FEAT_LIMIT,
            forall|j: int| 0 <= j < b@.len() ==> -FEAT_LIMIT <= #[trigger] b@[j] <= FEAT_LIMIT,
            acc == sq_sum(a@.take(i as int), b@.take(i as int)),
            acc <= (i as int) * (4 * FEAT_LIMIT * FEAT_LIMIT),
        decreases n - i,
    {
        proof {
            lemma_sq_sum_take_step(a@, b@, i as int);
            assert((i as int) * (4 * FEAT_LIMIT * FEAT_LIMIT) + 4 * FEAT_LIMIT * FEAT_LIMIT == (
            i + 1) as int * (4 * FEAT_LIMIT * FEAT_LIMIT)) by (nonlinear_arith);
            assert((i + 1) as int * (4 * FEAT_LIMIT * FEAT_LIMIT) <= (N_LIMIT as int) * (4
                * FEAT_LIMIT * FEAT_LIMIT)) by (nonlinear_arith)
                requires
                    i + 1 <= N_LIMIT,
            ;
        }
        let diff: i64 = a[i] - b[i];
        let wide: i128 = diff as i128;
        proof {
            assert(0 <= wide * wide <= 4 * FEAT_LIMIT * FEAT_LIMIT) by (nonlinear_arith)
                requires
                    -2 * FEAT_LIMIT <= wide <= 2 * FEAT_LIMIT,
            ;
        }
        let sq: i128 = wide * wide;
        acc = acc + (sq as u128);
        i = i + 1;
    }
    proof {
        assert(a@.take(n as int) =~= a@);
        assert(b@.take(n as int) =~= b@);
        lemma_sq_sum_bound(a@, b@);
    }
    acc
}

/// Inserting `x` into a distance-sorted sequence, after all entries whose
/// distance does not exceed `x`'s (so equal distances keep their order).
pub open spec fn insert_pair(s: Seq<(u128, u8)>, x: (u128, u8)) -> Seq<(u128, u8)>
    decreases s.len(),
{
    if s.len() == 0 {
        seq![x]
    } else if s.last().0 > x.0 {
        insert_pair(s.drop_last(), x).push(s.last())
    } else {
        s.push(x)
    }
}

/// Stable insertion sort of (distance, label) pairs, ascending by distance.
pub open spec fn isort(s: Seq<(u128, u8)>) -> Seq<(u128, u8)>
    decreases s.len(),
{
    if s.len() == 0 {
        Seq::empty()
    } else {
        insert_pair(isort(s.drop_last()), s.last())
    }
}

/// How many pairs in `s` carry the label `l`.
pub open spec fn count_pair(s: Seq<(u128, u8)>, l: u8) -> nat
    decreases s.len(),
{
    if s.len() == 0 {
        0
    } else {
        count_pair(s.drop_last(), l) + if s.last().1 == l {
            1nat
        } else {
            0nat
        }
    }
}

/// The (distance, label) pair each stored record contributes for query `q`.
pub open spec fn pairs_spec(stored: Seq<RecordView>, q: Seq<i64>) -> Seq<(u128, u8)> {
    Seq::new(stored.len(), |i: int| (dist_spec(q, stored[i].features), stored[i].target))
}

proof fn lemma_insert_pair_at(s: Seq<(u128, u8)>, x: (u128, u8), k: int)
    requires
        0 <= k <= s.len(),
        forall|j: int| k <= j < s.len() ==> (#[trigger] s[j]).0 > x.0,
        k > 0 ==> s[k - 1].0 <= x.0,
    ensures
        insert_pair(s, x) == s.take(k) + seq![x] + s.skip(k),
    decreases s.len() - k,
{
    if k == s.len() {
        if s.len() == 0 {
            assert(insert_pair(s, x) =~= s.take(k) + seq![x] + s.skip(k));
        } else {
            assert(s.push(x) =~= s.take(k) + seq![x] + s.skip(k));
        }
    } else {
        assert(s.len() > 0);
        assert(s.last().0 > x.0);
        let d = s.drop_last();
        assert(forall|j: int| k <= j < d.len() ==> (#[trigger] d[j]).0 > x.0);
        lemma_insert_pair_at(d, x, k);
        assert((d.take(k) + seq![x] + d.skip(k)).push(s.last()) =~= s.take(k) + seq![x] + s.skip(
            k,
        ));
    }
}

/// Inserting a pair adds exactly one entry with its label.
proof fn lemma_insert_pair_count(s: Seq<(u128, u8)>, x: (u128, u8), l: u8)
    ensures
        count_pair(insert_pair(s, x), l) == count_pair(s, l) + if x.1 == l {
            1nat
        } else {
            0nat
        },
    decreases s.len(),
{
    if s.len() == 0 {
        assert(insert_pair(s, x) == seq![x]);
        assert(seq![x].drop_last() =~= Seq::<(u128, u8)>::empty());
        assert(seq![x].last() == x);
        assert(count_pair(seq![x], l) == count_pair(seq![x].drop_last(), l) + if x.1 == l {
            1nat
        } else {
            0nat
        });
    } else if s.last().0 > x.0 {
        lemma_insert_pair_count(s.drop_last(), x, l);
        let rest = insert_pair(s.drop_last(), x);
        assert(insert_pair(s, x) == rest.push(s.last()));
        assert(rest.push(s.last()).drop_last() =~= rest);
        assert(rest.push(s.last()).last() == s.last());
        assert(count_pair(rest.push(s.last()), l) == count_pair(rest, l) + if s.last().1 == l {
            1nat
        } else {
            0nat
        });
        assert(count_pair(s, l) == count_pair(s.drop_last(), l) + if s.last().1 == l {
            1nat
        } else {
            0nat
        });
    } else {
        assert(insert_pair(s, x) == s.push(x));
        assert(s.push(x).drop_last() =~= s);
        assert(s.push(x).last() == x);
        assert(count_pair(s.push(x), l) == count_pair(s.push(x).drop_last(), l) + if x.1 == l {
            1nat
        } else {
            0nat
        });
    }
}

/// Sorting keeps the label counts.
proof fn lemma_isort_count(s: Seq<(u128, u8)>, l: u8)
    ensures
        count_pair(isort(s), l) == count_pair(s, l),
    decreases s.len(),
{
    if s.len() > 0 {
        lemma_isort_count(s.drop_last(), l);
        lemma_insert_pair_count(isort(s.drop_last()), s.last(), l);
    }
}

/// Sorting keeps the length.
proof fn lemma_isort_len(s: Seq<(u128, u8)>)
    ensures
        isort(s).len() == s.len(),
    decreases s.len(),
{
    if s.len() > 0 {
        lemma_isort_len(s.drop_last());
        lemma_insert_pair_len(isort(s.drop_last()), s.last());
    }
}

proof fn lemma_insert_pair_len(s: Seq<(u128, u8)>, x: (u128, u8))
    ensures
        insert_pair(s, x).len() == s.len() + 1,
    decreases s.len(),
{
    if s.len() > 0 && s.last().0 > x.0 {
        lemma_insert_pair_len(s.drop_last(), x);
    }
}

/// Inserts `x` into the distance-sorted vector `out`, matching
/// `insert_pair`.
fn insert_sorted(out: &mut Vec<(u128, u8)>, x: (u128, u8))
    ensures
        final(out)@ == insert_pair(old(out)@, x),
{
    let mut k = out.len();
    while k > 0 && out[k - 1].0 > x.0
        invariant
            k <= out@.len(),
            out@ == old(out)@,
            forall|j: int| k <= j < out@.len() ==> (#[trigger] out@[j]).0 > x.0,
        decreases k,
    {
        k = k - 1;
    }
    proof {
        lemma_insert_pair_at(out@, x, k as int);
    }
    out.insert(k, x);
    proof {
        assert(final(out)@ =~= old(out)@.take(k as int) + seq![x] + old(out)@.skip(k as int));
    }
}

/// The instance classifier: stores the training data and a fixed neighbor
/// count `k`; all work happens at prediction time.
pub struct KNN {
    training_data: Vec<ProcessedPatientRecord>,
    k: usize,
}

impl KNN {
    /// The stored training records.
    pub closed spec fn stored(&self) -> Seq<RecordView> {
        dataset_view(self.training_data@)
    }

    /// The configured neighbor count.
    pub closed spec fn neighbor_count(&self) -> usize {
        self.k
    }

    /// The exact prediction: sort all stored records by distance to the
    /// query, take the labels of the `k` closest (all of them when fewer
    /// than `k` exist), and return the majority label, ties going to 0.
    pub open spec fn knn_predict_spec(stored: Seq<RecordView>, k: usize, q: Seq<i64>) -> u8 {
        if stored.len() == 0 {
            0
        } else {
            let sorted = isort(pairs_spec(stored, q));
            let kk = if (k as int) < stored.len() {
                k as int
            } else {
                stored.len() as int
            };
            let nearest = sorted.take(kk);
            if count_pair(nearest, 1) > count_pair(nearest, 0) {
                1
            } else {
                0
            }
        }
    }

    pub fn new(k: usize) -> (r: KNN)
        ensures
            r.wf(),
            !r.trained(),
            r.neighbor_count() == k,
    {
        KNN { training_data: Vec::new(), k }
    }
}

impl Model for KNN {
    open spec fn wf(&self) -> bool {
        wf_dataset(self.stored())
    }

    open spec fn trained(&self) -> bool {
        self.stored().len() > 0
    }

    open spec fn accepts(&self, r: RecordView) -> bool {
        record_wf(r)
    }

    open spec fn predict_spec(&self, r: RecordView) -> u8 {
        Self::knn_predict_spec(self.stored(), self.neighbor_count(), r.features)
    }

    open spec fn train_rel(&self, data: Seq<RecordView>, result: Self) -> bool {
        &&& result.stored() == data
        &&& result.neighbor_count() == self.neighbor_count()
    }

    proof fn lemma_untrained_predicts_zero(&self, r: RecordView) {
    }

    proof fn lemma_predict_bounded(&self, r: RecordView) {
    }

    /// Stores a verbatim copy of the training collection.
    fn train(&mut self, data: &Vec<ProcessedPatientRecord>) {
        let n = data.len();
        let mut copy: Vec<ProcessedPatientRecord> = Vec::new();
        let mut i: usize = 0;
        while i < n
            invariant
                i <= n,
                n == data@.len(),
                copy@.len() == i,
                forall|j: int| 0 <= j < i ==> (#[trigger] copy@[j])@ == data@[j]@,
            decreases n - i,
        {
            copy.push(data[i].clone());
            i = i + 1;
        }
        proof {
            assert(dataset_view(copy@) =~= dataset_view(data@));
        }
        self.training_data = copy;
    }

    fn predict(&self, r: &ProcessedPatientRecord) -> (label: u8) {
        let n = self.training_data.len();
        if n == 0 {
            return 0;
        }
        let ghost stored = self.stored();
        let ghost q = r@.features;
        let mut pairs: Vec<(u128, u8)> = Vec::new();
        let mut i: usize = 0;
        while i < n
            invariant
                i <= n,
                n == stored.len(),
                stored == self.stored(),
                q == r@.features,
                wf_dataset(stored),
                record_wf(r@),
                pairs@.len() == i,
                forall|j: int| 0 <= j < i ==> pairs@[j] == pairs_spec(stored, q)[j],
            decreases n - i,
        {
            proof {
                assert(stored[i as int] == self.training_data@[i as int]@);
                assert(record_wf(stored[i as int]));
            }
            let d = sq_distance(&r.features, &self.training_data[i].features);
            let t = self.training_data[i].target;
            pairs.push((d, t));
            i = i + 1;
        }
        proof {
            assert(pairs@ =~= pairs_spec(stored, q));
        }
        // Stable sort by distance, ascending.
        let ghost all_pairs = pairs@;
        let mut sorted: Vec<(u128, u8)> = Vec::new();
        let mut i2: usize = 0;
        proof {
            assert(all_pairs.take(0) =~= Seq::<(u128, u8)>::empty());
        }
        while i2 < n
            invariant
                i2 <= n,
                n == all_pairs.len(),
                pairs@ == all_pairs,
                sorted@ == isort(all_pairs.take(i2 as int)),
            decreases n - i2,
        {
            proof {
                assert(all_pairs.take(i2 + 1).drop_last() =~= all_pairs.take(i2 as int));
                assert(all_pairs.take(i2 + 1).last() == all_pairs[i2 as int]);
            }
            insert_sorted(&mut sorted, pairs[i2]);
            i2 = i2 + 1;
        }
        proof {
            assert(all_pairs.take(n as int) =~= all_pairs);
            lemma_isort_len(all_pairs);
        }
        // Labels of the k nearest neighbors; with fewer than k records, all
        // of them.
        let kk = if self.k < n {
            self.k
        } else {
            n
        };
        let ghost nearest = isort(all_pairs).take(kk as int);
        let mut c0: usize = 0;
        let mut c1: usize = 0;
        let mut j: usize = 0;
        proof {
            assert(nearest.take(0) =~= Seq::<(u128, u8)>::empty());
        }
        while j < kk
            invariant
                j <= kk,
                kk <= n,
                n == sorted@.len(),
                nearest == sorted@.take(kk as int),
                c0 <= j,
                c1 <= j,
                c0 == count_pair(nearest.take(j as int), 0),
                c1 == count_pair(nearest.take(j as int), 1),
        decreases kk - j,
    {
            proof {
                assert(nearest.take(j + 1).drop_last() =~= nearest.take(j as int));
                assert(nearest.take(j + 1).last() == nearest[j as int]);
                assert(nearest[j as int] == sorted@[j as int]);
            }
            let label = sorted[j].1;
            if label == 1 {
                c1 = c1 + 1;
            } else if label == 0 {
                c0 = c0 + 1;
            }
            j = j + 1;
        }
        proof {
            assert(nearest.take(kk as int) =~= nearest);
        }
        if c1 > c0 {
            1
        } else {
            0
        }
    }

    fn check_accepts(&self, r: &ProcessedPatientRecord) -> (b: bool) {
        crate::record::check_record(r)
    }
}

/// Predicting with `k` at least the training-set size uses exactly all
/// training records: the prediction is the majority label of the whole
/// stored collection, ties going to 0.
pub proof fn theorem_knn_k_covers_all(m: &KNN, r: RecordView)
    requires
        m.wf(),
        m.neighbor_count() >= m.stored().len(),
        m.trained(),
    ensures
        m.predict_spec(r) == crate::record::majority_spec(m.stored()),
{
    let stored = m.stored();
    let q = r.features;
    let pairs = pairs_spec(stored, q);
    lemma_isort_len(pairs);
    assert(isort(pairs).take(stored.len() as int) =~= isort(pairs));
    lemma_isort_count(pairs, 0);
    lemma_isort_count(pairs, 1);
    lemma_pairs_count(stored, q, 0);
    lemma_pairs_count(stored, q, 1);
}

/// The pairs built for a query carry exactly the stored labels.
proof fn lemma_pairs_count(stored: Seq<RecordView>, q: Seq<i64>, l: u8)
    ensures
        count_pair(pairs_spec(stored, q), l) == count_label(stored, l),
    decreases stored.len(),
{
    if stored.len() > 0 {
        lemma_pairs_count(stored.drop_last(), q, l);
        assert(pairs_spec(stored, q).drop_last() =~= pairs_spec(stored.drop_last(), q));
    }
}

} // verus!
