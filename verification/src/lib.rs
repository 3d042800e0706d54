//! Binary classifiers for tabular patient data, verified with Verus.
//!
//! The crate trains and evaluates several independent binary classifiers
//! (logistic regression, Gaussian naive Bayes, k-nearest-neighbors, and a
//! CART-style decision tree), combines them by majority vote, and scores any
//! classifier against held-out data with confusion-matrix metrics.
//!
//! All numeric feature values are fixed-point integers: a feature value `v`
//! stands for the real number `v / fixed::ONE`. Working over integers lets
//! every training and prediction routine carry an exact mathematical
//! contract; metrics and class statistics are exact rationals.

pub mod decision_tree;
pub mod ensemble;
pub mod evaluation;
pub mod fixed;
pub mod knn;
pub mod logistic_regression;
pub mod model;
pub mod naive_bayes;
pub mod record;

pub use decision_tree::DecisionTree;
pub use ensemble::{BaseModel, VotingClassifier};
pub use evaluation::{calculate_metrics, Metrics, Ratio};
pub use knn::KNN;
pub use logistic_regression::LogisticRegression;
pub use model::Model;
pub use naive_bayes::GaussianNB;
pub use record::ProcessedPatientRecord;
