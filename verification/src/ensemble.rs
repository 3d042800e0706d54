//! The voting ensemble: composes any collection of base classifiers behind
//! the shared `Model` contract; training delegates to every member with the
//! same data, prediction tallies the members' votes and returns the
//! majority label, ties going to 0.

use vstd::prelude::*;

use crate::decision_tree::DecisionTree;
use crate::knn::KNN;
use crate::logistic_regression::LogisticRegression;
use crate::model::Model;
use crate::naive_bayes::GaussianNB;
use crate::record::{ProcessedPatientRecord, RecordView};

verus! {

/// The closed set of base classifiers an ensemble can hold.
///
/// An ensemble composes the four concrete models; it cannot wrap another
/// ensemble. Supporting that nesting would make the `Model` contract's
/// executable `train` and `predict` mutually recursive between this enum
/// and `VotingClassifier`, which would need recursive termination measures
/// threaded through the trait itself; the narrowing keeps the contract
/// flat, and every non-nested composition of the classifiers is available.
pub enum BaseModel {
    Linear(LogisticRegression),
    Gaussian(GaussianNB),
    Instance(KNN),
    Tree(DecisionTree),
}

impl Model for BaseModel {
    open spec fn wf(&self) -> bool {
        match *self {
            BaseModel::Linear(m) => m.wf(),
            BaseModel::Gaussian(m) => m.wf(),
            BaseModel::Instance(m) => m.wf(),
            BaseModel::Tree(m) => m.wf(),
        }
    }

    open spec fn trained(&self) -> bool {
        match *self {
            BaseModel::Linear(m) => m.trained(),
            BaseModel::Gaussian(m) => m.trained(),
            BaseModel::Instance(m) => m.trained(),
            BaseModel::Tree(m) => m.trained(),
        }
    }

    open spec fn accepts(&self, r: RecordView) -> bool {
        match *self {
            BaseModel::Linear(m) => m.accepts(r),
            BaseModel::Gaussian(m) => m.accepts(r),
            BaseModel::Instance(m) => m.accepts(r),
            BaseModel::Tree(m) => m.accepts(r),
        }
    }

    open spec fn predict_spec(&self, r: RecordView) -> u8 {
        match *self {
            BaseModel::Linear(m) => m.predict_spec(r),
            BaseModel::Gaussian(m) => m.predict_spec(r),
            BaseModel::Instance(m) => m.predict_spec(r),
            BaseModel::Tree(m) => m.predict_spec(r),
        }
    }

    open spec fn train_rel(&self, data: Seq<RecordView>, result: Self) -> bool {
        match *self {
            BaseModel::Linear(m) => result matches BaseModel::Linear(m2) && m.train_rel(data, m2),
            BaseModel::Gaussian(m) => result matches BaseModel::Gaussian(m2) && m.train_rel(
                data,
                m2,
            ),
            BaseModel::Instance(m) => result matches BaseModel::Instance(m2) && m.train_rel(
                data,
                m2,
            ),
            BaseModel::Tree(m) => result matches BaseModel::Tree(m2) && m.train_rel(data, m2),
        }
    }

    proof fn lemma_untrained_predicts_zero(&self, r: RecordView) {
        match *self {
            BaseModel::Linear(m) => m.lemma_untrained_predicts_zero(r),
            BaseModel::Gaussian(m) => m.lemma_untrained_predicts_zero(r),
            BaseModel::Instance(m) => m.lemma_untrained_predicts_zero(r),
            BaseModel::Tree(m) => m.lemma_untrained_predicts_zero(r),
        }
    }

    proof fn lemma_predict_bounded(&self, r: RecordView) {
        match *self {
            BaseModel::Linear(m) => m.lemma_predict_bounded(r),
            BaseModel::Gaussian(m) => m.lemma_predict_bounded(r),
            BaseModel::Instance(m) => m.lemma_predict_bounded(r),
            BaseModel::Tree(m) => m.lemma_predict_bounded(r),
        }
    }

    fn train(&mut self, data: &Vec<ProcessedPatientRecord>) {
        match self {
            BaseModel::Linear(m) => m.train(data),
            BaseModel::Gaussian(m) => m.train(data),
            BaseModel::Instance(m) => m.train(data),
            BaseModel::Tree(m) => m.train(data),
        }
    }

    fn predict(&self, r: &ProcessedPatientRecord) -> (label: u8) {
        match self {
            BaseModel::Linear(m) => m.predict(r),
            BaseModel::Gaussian(m) => m.predict(r),
            BaseModel::Instance(m) => m.predict(r),
            BaseModel::Tree(m) => m.predict(r),
        }
    }

    fn check_accepts(&self, r: &ProcessedPatientRecord) -> (b: bool) {
        match self {
            BaseModel::Linear(m) => m.check_accepts(r),
            BaseModel::Gaussian(m) => m.check_accepts(r),
            BaseModel::Instance(m) => m.check_accepts(r),
            BaseModel::Tree(m) => m.check_accepts(r),
        }
    }
}

/// The labels the members of a model collection predict for one record.
pub open spec fn votes(models: Seq<BaseModel>, r: RecordView) -> Seq<u8> {
    Seq::new(models.len(), |i: int| models[i].predict_spec(r))
}

/// How many votes carry the label `l`.
pub open spec fn count_votes(vs: Seq<u8>, l: u8) -> nat
    decreases vs.len(),
{
    if vs.len() == 0 {
        0
    } else {
        count_votes(vs.drop_last(), l) + if vs.last() == l {
            1nat
        } else {
            0nat
        }
    }
}

proof fn lemma_count_votes_take_step(vs: Seq<u8>, l: u8, i: int)
    requires
        0 <= i < vs.len(),
    ensures
        count_votes(vs.take(i + 1), l) == count_votes(vs.take(i), l) + if vs[i] == l {
            1nat
        } else {
            0nat
        },
{
    assert(vs.take(i + 1).drop_last() =~= vs.take(i));
    assert(vs.take(i + 1).last() == vs[i]);
}

proof fn lemma_count_votes_none(vs: Seq<u8>, l: u8)
    requires
        forall|i: int| 0 <= i < vs.len() ==> vs[i] != l,
    ensures
        count_votes(vs, l) == 0,
    decreases vs.len(),
{
    if vs.len() > 0 {
        assert(forall|i: int| 0 <= i < vs.drop_last().len() ==> vs.drop_last()[i] == vs[i]);
        lemma_count_votes_none(vs.drop_last(), l);
    }
}

/// The voting ensemble: an ordered collection of base classifiers.
pub struct VotingClassifier {
    models: Vec<BaseModel>,
}

impl VotingClassifier {
    /// The wrapped members, in voting order.
    pub closed spec fn models_view(&self) -> Seq<BaseModel> {
        self.models@
    }

    /// Wraps an ordered collection of already-constructed classifiers.
    pub fn new(models: Vec<BaseModel>) -> (r: VotingClassifier)
        requires
            forall|i: int| 0 <= i < models@.len() ==> (#[trigger] models@[i]).wf(),
        ensures
            r.wf(),
            r.models_view() == models@,
    {
        VotingClassifier { models }
    }
}

impl Model for VotingClassifier {
    open spec fn wf(&self) -> bool {
        forall|i: int| 0 <= i < self.models_view().len() ==> (#[trigger] self.models_view()[i]).wf()
    }

    open spec fn trained(&self) -> bool {
        exists|i: int| 0 <= i < self.models_view().len() && (#[trigger] self.models_view()[i]).trained()
    }

    open spec fn accepts(&self, r: RecordView) -> bool {
        forall|i: int|
            0 <= i < self.models_view().len() ==> (#[trigger] self.models_view()[i]).accepts(r)
    }

    open spec fn predict_spec(&self, r: RecordView) -> u8 {
        let vs = votes(self.models_view(), r);
        if count_votes(vs, 1) > count_votes(vs, 0) {
            1
        } else {
            0
        }
    }

    open spec fn train_rel(&self, data: Seq<RecordView>, result: Self) -> bool {
        &&& result.models_view().len() == self.models_view().len()
        &&& forall|i: int|
            0 <= i < self.models_view().len() ==> (#[trigger] self.models_view()[i]).train_rel(
                data,
                result.models_view()[i],
            )
    }

    proof fn lemma_untrained_predicts_zero(&self, r: RecordView) {
        let vs = votes(self.models_view(), r);
        assert forall|i: int| 0 <= i < vs.len() implies vs[i] != 1 by {
            assert(!(#[trigger] self.models_view()[i]).trained());
            self.models_view()[i].lemma_untrained_predicts_zero(r);
        }
        lemma_count_votes_none(vs, 1);
    }

    proof fn lemma_predict_bounded(&self, r: RecordView) {
    }

    /// Trains every member on the same data, in collection order.
    fn train(&mut self, data: &Vec<ProcessedPatientRecord>) {
        let ghost ds = crate::record::dataset_view(data@);
        let ghost orig = self.models@;
        let n = self.models.len();
        proof {
            assert forall|j: int| 0 <= j < n implies (#[trigger] orig[j]).wf() by {
                assert(old(self).models_view()[j].wf());
            }
        }
        let mut i: usize = 0;
        while i < n
            invariant
                i <= n,
                n == self.models@.len(),
                orig.len() == n,
                crate::record::wf_dataset(ds),
                ds == crate::record::dataset_view(data@),
                forall|j: int| 0 <= j < n ==> (#[trigger] orig[j]).wf(),
                forall|j: int| i <= j < n ==> #[trigger] self.models@[j] == orig[j],
                forall|j: int| 0 <= j < i ==> (#[trigger] orig[j]).train_rel(ds, self.models@[j]),
                forall|j: int| 0 <= j < i ==> (#[trigger] self.models@[j]).wf(),
            decreases n - i,
        {
            let m = &mut self.models[i];
            m.train(data);
            i = i + 1;
        }
        proof {
            assert forall|j: int| 0 <= j < self.models_view().len() implies (
            #[trigger] self.models_view()[j]).wf() by {
                assert(self.models@[j].wf());
            }
            assert forall|j: int| 0 <= j < old(self).models_view().len() implies (
            #[trigger] old(self).models_view()[j]).train_rel(ds, self.models_view()[j]) by {
                assert(orig[j].train_rel(ds, self.models@[j]));
            }
        }
    }

    /// Tallies every member's vote and returns the majority label; a tie
    /// returns 0.
    fn predict(&self, r: &ProcessedPatientRecord) -> (label: u8) {
        let ghost vs = votes(self.models_view(), r@);
        let n = self.models.len();
        let mut c0: usize = 0;
        let mut c1: usize = 0;
        let mut i: usize = 0;
        proof {
            assert(vs.take(0) =~= Seq::<u8>::empty());
        }
        while i < n
            invariant
                i <= n,
                n == self.models_view().len(),
                vs == votes(self.models_view(), r@),
                self.wf(),
                self.accepts(r@),
                c0 <= i,
                c1 <= i,
                c0 == count_votes(vs.take(i as int), 0),
                c1 == count_votes(vs.take(i as int), 1),
            decreases n - i,
        {
            proof {
                lemma_count_votes_take_step(vs, 0, i as int);
                lemma_count_votes_take_step(vs, 1, i as int);
                assert((#[trigger] self.models_view()[i as int]).wf());
                assert(self.models_view()[i as int].accepts(r@));
            }
            let m = &self.models[i];
            let label = m.predict(r);
            if label == 1 {
                c1 = c1 + 1;
            } else {
                proof {
                    assert(label == 0);
                }
                c0 = c0 + 1;
            }
            i = i + 1;
        }
        proof {
            assert(vs.take(n as int) =~= vs);
        }
        if c1 > c0 {
            1
        } else {
            0
        }
    }

    fn check_accepts(&self, r: &ProcessedPatientRecord) -> (b: bool) {
        let n = self.models.len();
        let mut i: usize = 0;
        while i < n
            invariant
                i <= n,
                n == self.models_view().len(),
                self.wf(),
                forall|j: int| 0 <= j < i ==> (#[trigger] self.models_view()[j]).accepts(r@),
            decreases n - i,
        {
            let m = &self.models[i];
            if !m.check_accepts(r) {
                return false;
            }
            i = i + 1;
        }
        true
    }
}

/// Majority voting is exact: the ensemble predicts 1 precisely when
/// strictly more members vote 1 than vote 0, and 0 otherwise — so any tie
/// deterministically yields 0.
pub proof fn theorem_majority_vote(vc: &VotingClassifier, r: RecordView)
    ensures
        vc.predict_spec(r) == 1 <==> count_votes(votes(vc.models_view(), r), 1) > count_votes(
            votes(vc.models_view(), r),
            0,
        ),
        vc.predict_spec(r) <= 1,
{
}

} // verus!
