//! The anomaly-scoring engine: feature extraction, min-max normalization,
//! isolation trees, the forest built from them, and the detector that drives
//! buffering, scoring and retraining.

pub mod fixed;
pub mod features;
pub mod random;
pub mod tree;
pub mod forest;
pub mod detector;
