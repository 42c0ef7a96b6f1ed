//! Three small machine-learning systems: streaming anomaly scoring for network
//! flows with an online isolation forest, a keyword-and-pattern chatbot, and a
//! content-based movie recommender.
//!
//! All real-valued quantities (features, scores, thresholds, ratings) are
//! carried as fixed-point integers counted in millionths, see
//! [`anomaly::fixed`].

pub mod anomaly;
pub mod text;
pub mod chatbot;
pub mod recommend;
