//! Tests of the evaluator: confusion-matrix counts and the exact rational
//! metrics, including the deliberate zero-guards.

use heart_predictor::{
    calculate_metrics, Model, ProcessedPatientRecord, Ratio, GaussianNB, KNN,
};

const ONE: i64 = 65536;

fn rec(features: Vec<i64>, target: u8) -> ProcessedPatientRecord {
    ProcessedPatientRecord { features, target }
}

/// A classifier that answers exactly the labels it memorized, via nearest
/// neighbor with k = 1 on well-separated points.
fn memorizing_classifier(labels: &[u8]) -> KNN {
    let mut m = KNN::new(1);
    let training: Vec<ProcessedPatientRecord> = labels
        .iter()
        .enumerate()
        .map(|(i, &l)| rec(vec![(i as i64) * 10 * ONE], l))
        .collect();
    m.train(&training);
    m
}

fn test_points(truths: &[u8]) -> Vec<ProcessedPatientRecord> {
    truths
        .iter()
        .enumerate()
        .map(|(i, &l)| rec(vec![(i as i64) * 10 * ONE], l))
        .collect()
}

#[test]
fn ratio_equality_is_by_value() {
    assert!(Ratio::new(1, 2).equals(&Ratio::new(2, 4)));
    assert!(Ratio::new(0, 5).equals(&Ratio::new(0, 1)));
    assert!(!Ratio::new(1, 2).equals(&Ratio::new(1, 3)));
}

#[test]
fn evaluator_balanced_confusion_matrix() {
    // P7 scenario: true labels [1,0,1,0], predictions [1,0,0,1].
    let model = memorizing_classifier(&[1, 0, 0, 1]);
    let test_data = test_points(&[1, 0, 1, 0]);
    let (m, (tp, tn, fp, fn_)) = calculate_metrics(&model, &test_data);
    assert_eq!((tp, tn, fp, fn_), (1, 1, 1, 1));
    let half = Ratio::new(1, 2);
    assert!(m.accuracy.equals(&half));
    assert!(m.precision.equals(&half));
    assert!(m.recall.equals(&half));
    assert!(m.f1_score.equals(&half));
}

#[test]
fn evaluator_all_wrong_zero_guards() {
    // P8 scenario: an untrained classifier predicts 0 for every record
    // while every true label is 1.
    let model = GaussianNB::new();
    let test_data = test_points(&[1, 1, 1, 1, 1]);
    let (m, (tp, tn, fp, fn_)) = calculate_metrics(&model, &test_data);
    assert_eq!((tp, tn, fp, fn_), (0, 0, 0, 5));
    let zero = Ratio::new(0, 1);
    assert!(m.accuracy.equals(&zero));
    assert!(m.precision.equals(&zero));
    assert!(m.recall.equals(&zero));
    assert!(m.f1_score.equals(&zero));
}

#[test]
fn evaluator_exact_metric_formulas() {
    // predictions [1,1,1,0] against truths [1,1,0,1]:
    // TP = 2, TN = 0, FP = 1, FN = 1.
    let model = memorizing_classifier(&[1, 1, 1, 0]);
    let test_data = test_points(&[1, 1, 0, 1]);
    let (m, (tp, tn, fp, fn_)) = calculate_metrics(&model, &test_data);
    assert_eq!((tp, tn, fp, fn_), (2, 0, 1, 1));
    assert!(m.accuracy.equals(&Ratio::new(2, 4)));
    assert!(m.precision.equals(&Ratio::new(2, 3)));
    assert!(m.recall.equals(&Ratio::new(2, 3)));
    // F1 = 2 * TP / (2 * TP + FP + FN) = 4 / 6.
    assert!(m.f1_score.equals(&Ratio::new(4, 6)));
}

#[test]
fn evaluator_perfect_classifier() {
    let model = memorizing_classifier(&[1, 0, 1, 0]);
    let test_data = test_points(&[1, 0, 1, 0]);
    let (m, (tp, tn, fp, fn_)) = calculate_metrics(&model, &test_data);
    assert_eq!((tp, tn, fp, fn_), (2, 2, 0, 0));
    let one = Ratio::new(1, 1);
    assert!(m.accuracy.equals(&one));
    assert!(m.precision.equals(&one));
    assert!(m.recall.equals(&one));
    assert!(m.f1_score.equals(&one));
}

#[test]
fn evaluator_empty_test_set() {
    let model = GaussianNB::new();
    let (m, (tp, tn, fp, fn_)) = calculate_metrics(&model, &Vec::new());
    assert_eq!((tp, tn, fp, fn_), (0, 0, 0, 0));
    assert!(m.accuracy.equals(&Ratio::new(0, 1)));
}
