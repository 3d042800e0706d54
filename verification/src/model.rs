//! The classifier contract: every model (and the voting ensemble) exposes
//! `train` and `predict`, specified through model-specific spec functions.

use vstd::prelude::*;

use crate::record::{wf_dataset, dataset_view, ProcessedPatientRecord, RecordView};

verus! {

/// The capability interface shared by all classifiers.
///
/// Each implementation supplies:
/// - `wf`: its internal invariant,
/// - `trained`: whether a successful `train` has populated its state,
/// - `accepts`: which records `predict` may be called on,
/// - `predict_spec`: the exact mathematical value `predict` returns,
/// - `train_rel`: how the state after `train` relates to the state before
///   it and to the training data.
pub trait Model: Sized {
    spec fn wf(&self) -> bool;

    spec fn trained(&self) -> bool;

    spec fn accepts(&self, r: RecordView) -> bool;

    spec fn predict_spec(&self, r: RecordView) -> u8;

    spec fn train_rel(&self, data: Seq<RecordView>, result: Self) -> bool;

    /// An untrained classifier predicts the default label 0.
    proof fn lemma_untrained_predicts_zero(&self, r: RecordView)
        requires
            self.wf(),
            !self.trained(),
        ensures
            self.predict_spec(r) == 0,
    ;

    /// Predictions are always binary labels.
    proof fn lemma_predict_bounded(&self, r: RecordView)
        requires
            self.wf(),
        ensures
            self.predict_spec(r) <= 1,
    ;

    /// Replaces the internal state with state learned from `data`; a call
    /// with an empty collection is a safe no-op or a reset to the untrained
    /// state, never a corruption.
    fn train(&mut self, data: &Vec<ProcessedPatientRecord>)
        requires
            old(self).wf(),
            wf_dataset(dataset_view(data@)),
        ensures
            final(self).wf(),
            old(self).train_rel(dataset_view(data@), *final(self)),
    ;

    /// Returns the label `predict_spec` assigns to `r`.
    fn predict(&self, r: &ProcessedPatientRecord) -> (label: u8)
        requires
            self.wf(),
            self.accepts(r@),
        ensures
            label == self.predict_spec(r@),
            label <= 1,
    ;

    /// Checks `accepts` at run time, so that unverified callers can
    /// establish `predict`'s precondition.
    fn check_accepts(&self, r: &ProcessedPatientRecord) -> (b: bool)
        requires
            self.wf(),
        ensures
            b == self.accepts(r@),
    ;
}

/// Every classifier behind the `Model` contract returns the default label 0
/// before it has been trained.
pub proof fn theorem_untrained_predicts_zero<M: Model>(m: &M, r: RecordView)
    requires
        m.wf(),
        !m.trained(),
    ensures
        m.predict_spec(r) == 0,
{
    m.lemma_untrained_predicts_zero(r);
}

} // verus!
