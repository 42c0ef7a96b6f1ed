//! Movie recommendation: the dataset, and recommendation by content.

pub mod models;
pub mod content_based;
