//! Behavioral tests of the four base classifiers and the voting ensemble.

use heart_predictor::record::{check_dataset, check_record};
use heart_predictor::{
    BaseModel, DecisionTree, GaussianNB, Model, ProcessedPatientRecord, VotingClassifier, KNN,
    LogisticRegression,
};

const ONE: i64 = 65536;

fn rec(features: Vec<i64>, target: u8) -> ProcessedPatientRecord {
    ProcessedPatientRecord { features, target }
}

/// Trains a decision tree that always predicts `label`.
fn constant_tree(label: u8) -> DecisionTree {
    let mut t = DecisionTree::new(5, 2);
    t.train(&vec![rec(vec![0], label), rec(vec![ONE], label)]);
    t
}

#[test]
fn untrained_logistic_regression_predicts_zero() {
    let m = LogisticRegression::new(655, 10);
    assert_eq!(m.predict(&rec(vec![ONE, 2 * ONE], 1)), 0);
}

#[test]
fn untrained_naive_bayes_predicts_zero() {
    let m = GaussianNB::new();
    assert_eq!(m.predict(&rec(vec![ONE], 1)), 0);
}

#[test]
fn untrained_knn_predicts_zero() {
    let m = KNN::new(3);
    assert_eq!(m.predict(&rec(vec![ONE], 1)), 0);
}

#[test]
fn untrained_decision_tree_predicts_zero() {
    let m = DecisionTree::new(10, 2);
    assert_eq!(m.predict(&rec(vec![ONE], 1)), 0);
}

#[test]
fn untrained_ensemble_predicts_zero() {
    let m = VotingClassifier::new(vec![
        BaseModel::Linear(LogisticRegression::new(655, 10)),
        BaseModel::Gaussian(GaussianNB::new()),
        BaseModel::Instance(KNN::new(3)),
        BaseModel::Tree(DecisionTree::new(10, 2)),
    ]);
    assert_eq!(m.predict(&rec(vec![ONE], 1)), 0);
}

#[test]
fn empty_training_is_a_safe_no_op() {
    let mut m = DecisionTree::new(10, 2);
    m.train(&Vec::new());
    assert_eq!(m.predict(&rec(vec![ONE], 1)), 0);
    let mut lr = LogisticRegression::new(655, 10);
    lr.train(&Vec::new());
    assert_eq!(lr.predict(&rec(vec![ONE], 1)), 0);
    let mut nb = GaussianNB::new();
    nb.train(&Vec::new());
    assert_eq!(nb.predict(&rec(vec![ONE], 1)), 0);
}

#[test]
fn knn_memorizes_training_points() {
    let mut m = KNN::new(1);
    m.train(&vec![
        rec(vec![0], 1),
        rec(vec![10 * ONE], 0),
        rec(vec![20 * ONE], 1),
    ]);
    assert_eq!(m.predict(&rec(vec![ONE], 0)), 1);
    assert_eq!(m.predict(&rec(vec![9 * ONE], 0)), 0);
    assert_eq!(m.predict(&rec(vec![21 * ONE], 0)), 1);
}

#[test]
fn knn_with_k_beyond_training_size_uses_all_records() {
    // P5 scenario: k = 10 over 3 stored records means the vote is over all
    // of them, whatever the query looks like.
    let mut m = KNN::new(10);
    m.train(&vec![
        rec(vec![0], 1),
        rec(vec![100 * ONE], 1),
        rec(vec![200 * ONE], 0),
    ]);
    assert_eq!(m.predict(&rec(vec![150 * ONE], 0)), 1);
    assert_eq!(m.predict(&rec(vec![0], 0)), 1);
}

#[test]
fn knn_vote_tie_goes_to_zero() {
    let mut m = KNN::new(2);
    m.train(&vec![rec(vec![0], 1), rec(vec![ONE], 0)]);
    assert_eq!(m.predict(&rec(vec![0], 0)), 0);
}

#[test]
fn knn_length_mismatch_is_a_sentinel_distance() {
    // A query of a different length is maximally distant from every stored
    // record, so the stable sort keeps the stored order and the first
    // record's label wins with k = 1.
    let mut m = KNN::new(1);
    m.train(&vec![rec(vec![0, 0], 0), rec(vec![ONE, ONE], 1)]);
    assert_eq!(m.predict(&rec(vec![0], 1)), 0);
}

#[test]
fn logistic_regression_learns_a_separable_boundary() {
    let mut m = LogisticRegression::new(6554, 200);
    m.train(&vec![
        rec(vec![-2 * ONE], 0),
        rec(vec![-ONE], 0),
        rec(vec![ONE], 1),
        rec(vec![2 * ONE], 1),
    ]);
    assert_eq!(m.predict(&rec(vec![-3 * ONE], 0)), 0);
    assert_eq!(m.predict(&rec(vec![3 * ONE], 0)), 1);
}

#[test]
fn logistic_regression_all_positive_labels() {
    let mut m = LogisticRegression::new(6554, 50);
    m.train(&vec![rec(vec![ONE], 1), rec(vec![2 * ONE], 1)]);
    assert_eq!(m.predict(&rec(vec![ONE], 0)), 1);
}

#[test]
fn naive_bayes_separates_distant_classes() {
    let mut m = GaussianNB::new();
    m.train(&vec![
        rec(vec![0], 0),
        rec(vec![ONE], 0),
        rec(vec![99 * ONE], 1),
        rec(vec![101 * ONE], 1),
    ]);
    assert_eq!(m.predict(&rec(vec![ONE / 2], 0)), 0);
    assert_eq!(m.predict(&rec(vec![100 * ONE], 0)), 1);
}

#[test]
fn naive_bayes_single_class_always_returns_it() {
    let mut m = GaussianNB::new();
    m.train(&vec![rec(vec![0], 1), rec(vec![ONE], 1)]);
    assert_eq!(m.predict(&rec(vec![500 * ONE], 0)), 1);
    assert_eq!(m.predict(&rec(vec![-500 * ONE], 0)), 1);
}

#[test]
fn decision_tree_learns_a_threshold() {
    let mut m = DecisionTree::new(5, 2);
    m.train(&vec![
        rec(vec![0], 0),
        rec(vec![ONE], 0),
        rec(vec![10 * ONE], 1),
        rec(vec![11 * ONE], 1),
    ]);
    assert_eq!(m.predict(&rec(vec![-ONE], 1)), 0);
    assert_eq!(m.predict(&rec(vec![2 * ONE], 1)), 0);
    assert_eq!(m.predict(&rec(vec![9 * ONE], 0)), 1);
    assert_eq!(m.predict(&rec(vec![20 * ONE], 0)), 1);
}

#[test]
fn decision_tree_on_uniform_labels_predicts_that_label() {
    // P9 scenario: all records share one label, so the tree is a pure leaf
    // whatever the depth and minimum-split settings.
    for (md, ms) in [(0usize, 2usize), (10, 2), (3, 100)] {
        let mut m = DecisionTree::new(md, ms);
        m.train(&vec![
            rec(vec![0, ONE], 1),
            rec(vec![5 * ONE, -ONE], 1),
            rec(vec![-3 * ONE, 7 * ONE], 1),
        ]);
        assert_eq!(m.predict(&rec(vec![123 * ONE, -55 * ONE], 0)), 1);
        let mut z = DecisionTree::new(md, ms);
        z.train(&vec![rec(vec![0, ONE], 0), rec(vec![5 * ONE, -ONE], 0)]);
        assert_eq!(z.predict(&rec(vec![123 * ONE, -55 * ONE], 1)), 0);
    }
}

#[test]
fn decision_tree_respects_depth_limit() {
    // With a depth limit of zero the tree is a single majority leaf.
    let mut m = DecisionTree::new(0, 2);
    m.train(&vec![
        rec(vec![0], 0),
        rec(vec![10 * ONE], 1),
        rec(vec![11 * ONE], 1),
    ]);
    assert_eq!(m.predict(&rec(vec![0], 0)), 1);
}

#[test]
fn ensemble_majority_two_to_one_returns_one() {
    // P6 scenario: three members voting {1, 1, 0}.
    let m = VotingClassifier::new(vec![
        BaseModel::Tree(constant_tree(1)),
        BaseModel::Tree(constant_tree(1)),
        BaseModel::Tree(constant_tree(0)),
    ]);
    assert_eq!(m.predict(&rec(vec![7 * ONE], 0)), 1);
}

#[test]
fn ensemble_tie_deterministically_returns_zero() {
    // P6 scenario: two members voting {1, 0} tie; the tally's documented
    // tie-break returns 0.
    let m = VotingClassifier::new(vec![
        BaseModel::Tree(constant_tree(1)),
        BaseModel::Tree(constant_tree(0)),
    ]);
    assert_eq!(m.predict(&rec(vec![7 * ONE], 0)), 0);
    let m2 = VotingClassifier::new(vec![
        BaseModel::Tree(constant_tree(0)),
        BaseModel::Tree(constant_tree(1)),
    ]);
    assert_eq!(m2.predict(&rec(vec![7 * ONE], 0)), 0);
}

#[test]
fn ensemble_trains_every_member() {
    let mut m = VotingClassifier::new(vec![
        BaseModel::Instance(KNN::new(1)),
        BaseModel::Tree(DecisionTree::new(5, 2)),
        BaseModel::Gaussian(GaussianNB::new()),
    ]);
    m.train(&vec![
        rec(vec![0], 0),
        rec(vec![ONE], 0),
        rec(vec![10 * ONE], 1),
        rec(vec![11 * ONE], 1),
    ]);
    assert_eq!(m.predict(&rec(vec![0], 1)), 0);
    assert_eq!(m.predict(&rec(vec![10 * ONE], 0)), 1);
}

#[test]
fn dataset_checks_accept_and_reject() {
    assert!(check_record(&rec(vec![0, ONE], 1)));
    assert!(!check_record(&rec(vec![0], 2)));
    assert!(!check_record(&rec(vec![i64::MAX], 0)));
    assert!(check_dataset(&vec![rec(vec![0], 0), rec(vec![ONE], 1)]));
    assert!(!check_dataset(&vec![rec(vec![0], 0), rec(vec![ONE, ONE], 1)]));
    assert!(check_dataset(&Vec::new()));
}

#[test]
fn models_report_which_records_they_accept() {
    let mut m = GaussianNB::new();
    m.train(&vec![rec(vec![0, 0], 0), rec(vec![ONE, ONE], 1)]);
    assert!(m.check_accepts(&rec(vec![ONE, 0], 0)));
    assert!(!m.check_accepts(&rec(vec![ONE], 0)));
    let untrained = GaussianNB::new();
    assert!(untrained.check_accepts(&rec(vec![ONE], 0)));
}
