//! The labeled feature-vector type consumed by every classifier, together
//! with the dataset well-formedness conditions and label-counting helpers
//! shared by the models.

use vstd::prelude::*;

verus! {

/// Magnitude bound on a single fixed-point feature value.
pub const FEAT_LIMIT: i64 = 134217728;

/// Bound on the number of records in a dataset and on the number of
/// features in a record; keeps all intermediate products inside `u128`.
pub const N_LIMIT: usize = 262144;

/// One labeled record: a fixed-length vector of fixed-point feature values
/// and a binary target label (0 or 1).
pub struct ProcessedPatientRecord {
    pub features: Vec<i64>,
    pub target: u8,
}

/// The mathematical value of a record: its feature sequence and its label.
pub ghost struct RecordView {
    pub features: Seq<i64>,
    pub target: u8,
}

impl View for ProcessedPatientRecord {
    type V = RecordView;

    open spec fn view(&self) -> RecordView {
        RecordView { features: self.features@, target: self.target }
    }
}

impl Clone for ProcessedPatientRecord {
    fn clone(&self) -> (r: Self)
        ensures
            r@ == self@,
    {
        let features = self.features.clone();
        proof {
            assert(features@ =~= self.features@);
        }
        ProcessedPatientRecord { features, target: self.target }
    }
}

/// The views of all records in a vector.
pub open spec fn dataset_view(s: Seq<ProcessedPatientRecord>) -> Seq<RecordView> {
    s.map_values(|r: ProcessedPatientRecord| r@)
}

/// A record is well formed when its label is binary and its feature values
/// are bounded in number and magnitude.
pub open spec fn record_wf(r: RecordView) -> bool {
    &&& r.target <= 1
    &&& r.features.len() <= N_LIMIT
    &&& forall|i: int|
        0 <= i < r.features.len() ==> -FEAT_LIMIT <= #[trigger] r.features[i] <= FEAT_LIMIT
}

/// A dataset is well formed when it is bounded in size, every record is
/// well formed, and all records agree on the feature-vector length.
pub open spec fn wf_dataset(s: Seq<RecordView>) -> bool {
    &&& s.len() <= N_LIMIT
    &&& forall|i: int| 0 <= i < s.len() ==> record_wf(#[trigger] s[i])
    &&& forall|i: int| 0 <= i < s.len() ==> (#[trigger] s[i]).features.len() == s[0].features.len()
}

/// Checks a record against `record_wf`, so that unverified callers can
/// establish the models' preconditions at run time.
pub fn check_record(r: &ProcessedPatientRecord) -> (b: bool)
    ensures
        b == record_wf(r@),
{
    if r.target > 1 {
        return false;
    }
    if r.features.len() > N_LIMIT {
        return false;
    }
    let n = r.features.len();
    let mut i: usize = 0;
    while i < n
        invariant
            i <= n,
            n == r@.features.len(),
            forall|j: int| 0 <= j < i ==> -FEAT_LIMIT <= #[trigger] r@.features[j] <= FEAT_LIMIT,
        decreases n - i,
    {
        let v = r.features[i];
        if v < -FEAT_LIMIT || v > FEAT_LIMIT {
            return false;
        }
        i = i + 1;
    }
    true
}

/// Checks a whole dataset against `wf_dataset`.
pub fn check_dataset(data: &Vec<ProcessedPatientRecord>) -> (b: bool)
    ensures
        b == wf_dataset(dataset_view(data@)),
{
    let ghost s = dataset_view(data@);
    if data.len() > N_LIMIT {
        return false;
    }
    let n = data.len();
    let mut i: usize = 0;
    while i < n
        invariant
            i <= n,
            n == s.len(),
            s == dataset_view(data@),
            forall|j: int| 0 <= j < i ==> record_wf(#[trigger] s[j]),
            forall|j: int| 0 <= j < i ==> (#[trigger] s[j]).features.len() == s[0].features.len(),
        decreases n - i,
    {
        proof {
            assert(s[i as int] == data@[i as int]@);
            assert(s[0] == data@[0]@);
        }
        if !check_record(&data[i]) {
            return false;
        }
        if data[i].features.len() != data[0].features.len() {
            return false;
        }
        i = i + 1;
    }
    true
}

/// How many records in `s` carry the label `l`.
pub open spec fn count_label(s: Seq<RecordView>, l: u8) -> nat
    decreases s.len(),
{
    if s.len() == 0 {
        0
    } else {
        count_label(s.drop_last(), l) + if s.last().target == l {
            1nat
        } else {
            0nat
        }
    }
}

/// Every record in `s` carries the same label as the first one.
pub open spec fn all_same_label(s: Seq<RecordView>) -> bool {
    forall|i: int| 0 <= i < s.len() ==> (#[trigger] s[i]).target == s[0].target
}

/// The majority label of `s`: 1 when the 1-labeled records strictly
/// outnumber the 0-labeled ones, 0 otherwise (ties go to 0).
pub open spec fn majority_spec(s: Seq<RecordView>) -> u8 {
    if count_label(s, 1) > count_label(s, 0) {
        1
    } else {
        0
    }
}

/// A label count never exceeds the sequence length.
pub proof fn lemma_count_label_le_len(s: Seq<RecordView>, l: u8)
    ensures
        count_label(s, l) <= s.len(),
    decreases s.len(),
{
    if s.len() > 0 {
        lemma_count_label_le_len(s.drop_last(), l);
    }
}

/// When every label is binary, the 0-count and 1-count partition the
/// sequence.
pub proof fn lemma_count_label_partition(s: Seq<RecordView>)
    requires
        forall|i: int| 0 <= i < s.len() ==> (#[trigger] s[i]).target <= 1,
    ensures
        count_label(s, 0) + count_label(s, 1) == s.len(),
    decreases s.len(),
{
    if s.len() > 0 {
        assert(forall|i: int|
            0 <= i < s.drop_last().len() ==> (#[trigger] s.drop_last()[i]).target <= 1);
        lemma_count_label_partition(s.drop_last());
    }
}

/// Counting over a prefix extends one element at a time.
pub proof fn lemma_count_label_take_step(s: Seq<RecordView>, l: u8, i: int)
    requires
        0 <= i < s.len(),
    ensures
        count_label(s.take(i + 1), l) == count_label(s.take(i), l) + if s[i].target == l {
            1nat
        } else {
            0nat
        },
{
    assert(s.take(i + 1).drop_last() =~= s.take(i));
    assert(s.take(i + 1).last() == s[i]);
}

/// Counts the 0-labeled and 1-labeled records of the collection.
pub fn count_labels_exec(data: &Vec<ProcessedPatientRecord>) -> (counts: (usize, usize))
    requires
        forall|i: int|
            0 <= i < data@.len() ==> (#[trigger] dataset_view(data@)[i]).target <= 1,
    ensures
        counts.0 == count_label(dataset_view(data@), 0),
        counts.1 == count_label(dataset_view(data@), 1),
        counts.0 + counts.1 == data@.len(),
{
    let ghost s = dataset_view(data@);
    let n = data.len();
    let mut c0: usize = 0;
    let mut c1: usize = 0;
    let mut i: usize = 0;
    proof {
        assert(s.take(0) =~= Seq::<RecordView>::empty());
    }
    while i < n
        invariant
            i <= n,
            n == s.len(),
            s == dataset_view(data@),
            forall|j: int| 0 <= j < s.len() ==> (#[trigger] s[j]).target <= 1,
            c0 == count_label(s.take(i as int), 0),
            c1 == count_label(s.take(i as int), 1),
            c0 + c1 == i,
        decreases n - i,
    {
        proof {
            lemma_count_label_take_step(s, 0, i as int);
            lemma_count_label_take_step(s, 1, i as int);
        }
        if data[i].target == 1 {
            c1 = c1 + 1;
        } else {
            c0 = c0 + 1;
        }
        i = i + 1;
    }
    proof {
        assert(s.take(n as int) =~= s);
    }
    (c0, c1)
}

} // verus!
